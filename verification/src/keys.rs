//! Key ordering for the symbol tables.
//!
//! The trees are generic over their key type. A key type supplies a strict
//! total order `lt` together with the equivalence `eqv` of keys that compare
//! as equal, an executable three-way comparison, and an exact duplication
//! method. Integer keys and `String` keys are supported out of the box.

use vstd::prelude::*;

verus! {

/// Result of a three-way comparison between two keys.
#[derive(Clone, Copy, Debug, PartialEq, Eq, Structural)]
pub enum KeyCmp {
    Less,
    Equal,
    Greater,
}

/// A type whose values can be duplicated exactly.
///
/// `dup` hands back a value that equals, in the specification sense, the
/// value it was called on. A plain `Clone` bound promises nothing to the
/// verifier, so the tables ask for this trait instead.
pub trait Dup: Sized {
    fn dup(&self) -> (copy: Self)
        ensures
            copy == *self,
    ;
}

/// A strict total order on keys, up to an equivalence.
///
/// `lt` is the order and `eqv` relates keys that compare as equal. For
/// integers `eqv` coincides with equality; for `String` it is equality of the
/// character sequences, which is all that can be observed of a string, so the
/// laws below are phrased with `eqv` rather than `==`.
pub trait OrdKey: Dup {
    /// The strict order: `self` comes before `other`.
    spec fn lt(self, other: Self) -> bool;

    /// The keys compare as equal.
    spec fn eqv(self, other: Self) -> bool;

    /// At least one of `lt`, `eqv`, `gt` holds, they exclude one another,
    /// and `eqv` is symmetric.
    proof fn lemma_trichotomy(a: Self, b: Self)
        ensures
            a.lt(b) || a.eqv(b) || b.lt(a),
            a.lt(b) ==> !a.eqv(b) && !b.lt(a),
            a.eqv(b) ==> !a.lt(b) && !b.lt(a) && b.eqv(a),
    ;

    /// The strict order is transitive.
    proof fn lemma_lt_transitive(a: Self, b: Self, c: Self)
        requires
            a.lt(b),
            b.lt(c),
        ensures
            a.lt(c),
    ;

    /// Keys that compare as equal order the same way against every key.
    proof fn lemma_eqv_congruent(a: Self, b: Self, c: Self)
        requires
            a.eqv(b),
        ensures
            a.lt(c) == b.lt(c),
            c.lt(a) == c.lt(b),
            a.eqv(c) == b.eqv(c),
    ;

    /// Executable three-way comparison deciding the order.
    fn cmp_key(&self, other: &Self) -> (ord: KeyCmp)
        ensures
            ord is Less ==> self.lt(*other),
            ord is Equal ==> self.eqv(*other),
            ord is Greater ==> other.lt(*self),
    ;
}

impl Dup for u32 {
    fn dup(&self) -> (copy: Self)
        ensures
            copy == *self,
    {
        *self
    }
}

impl Dup for u64 {
    fn dup(&self) -> (copy: Self)
        ensures
            copy == *self,
    {
        *self
    }
}

impl Dup for usize {
    fn dup(&self) -> (copy: Self)
        ensures
            copy == *self,
    {
        *self
    }
}

impl Dup for bool {
    fn dup(&self) -> (copy: Self)
        ensures
            copy == *self,
    {
        *self
    }
}

impl Dup for String {
    fn dup(&self) -> (copy: Self)
        ensures
            copy == *self,
    {
        self.clone()
    }
}

impl OrdKey for u32 {
    open spec fn lt(self, other: Self) -> bool {
        self < other
    }

    open spec fn eqv(self, other: Self) -> bool {
        self == other
    }

    proof fn lemma_trichotomy(a: Self, b: Self) {
    }

    proof fn lemma_lt_transitive(a: Self, b: Self, c: Self) {
    }

    proof fn lemma_eqv_congruent(a: Self, b: Self, c: Self) {
    }

    fn cmp_key(&self, other: &Self) -> (ord: KeyCmp) {
        if *self < *other {
            KeyCmp::Less
        } else if *self == *other {
            KeyCmp::Equal
        } else {
            KeyCmp::Greater
        }
    }
}

impl OrdKey for u64 {
    open spec fn lt(self, other: Self) -> bool {
        self < other
    }

    open spec fn eqv(self, other: Self) -> bool {
        self == other
    }

    proof fn lemma_trichotomy(a: Self, b: Self) {
    }

    proof fn lemma_lt_transitive(a: Self, b: Self, c: Self) {
    }

    proof fn lemma_eqv_congruent(a: Self, b: Self, c: Self) {
    }

    fn cmp_key(&self, other: &Self) -> (ord: KeyCmp) {
        if *self < *other {
            KeyCmp::Less
        } else if *self == *other {
            KeyCmp::Equal
        } else {
            KeyCmp::Greater
        }
    }
}

impl OrdKey for usize {
    open spec fn lt(self, other: Self) -> bool {
        self < other
    }

    open spec fn eqv(self, other: Self) -> bool {
        self == other
    }

    proof fn lemma_trichotomy(a: Self, b: Self) {
    }

    proof fn lemma_lt_transitive(a: Self, b: Self, c: Self) {
    }

    proof fn lemma_eqv_congruent(a: Self, b: Self, c: Self) {
    }

    fn cmp_key(&self, other: &Self) -> (ord: KeyCmp) {
        if *self < *other {
            KeyCmp::Less
        } else if *self == *other {
            KeyCmp::Equal
        } else {
            KeyCmp::Greater
        }
    }
}

/// Lexicographic order on character sequences: a proper prefix comes first,
/// otherwise the first differing character decides.
pub open spec fn lex_lt(a: Seq<char>, b: Seq<char>) -> bool
    decreases a.len(),
{
    if b.len() == 0 {
        false
    } else if a.len() == 0 {
        true
    } else if a[0] == b[0] {
        lex_lt(a.drop_first(), b.drop_first())
    } else {
        (a[0] as u32) < (b[0] as u32)
    }
}

/// Lexicographic order is a strict total order on character sequences.
pub proof fn lemma_lex_trichotomy(a: Seq<char>, b: Seq<char>)
    ensures
        lex_lt(a, b) || a == b || lex_lt(b, a),
        lex_lt(a, b) ==> a != b && !lex_lt(b, a),
    decreases a.len() + b.len(),
{
    if a.len() == 0 && b.len() == 0 {
        assert(a =~= b);
    } else if a.len() == 0 || b.len() == 0 {
        assert(a.len() != b.len());
    } else {
        if a[0] == b[0] {
            lemma_lex_trichotomy(a.drop_first(), b.drop_first());
            if a.drop_first() == b.drop_first() {
                assert forall|i: int| 0 <= i < a.len() implies a[i] == b[i] by {
                    if i > 0 {
                        assert(a.drop_first()[i - 1] == a[i]);
                        assert(b.drop_first()[i - 1] == b[i]);
                    }
                }
                assert(a =~= b);
            }
            if a == b {
                assert(a.drop_first() =~= b.drop_first());
            }
        } else {
            if (a[0] as u32) == (b[0] as u32) {
                vstd::utf8::char_u32_cast(a[0], a[0] as u32);
                vstd::utf8::char_u32_cast(b[0], b[0] as u32);
            }
            if a == b {
                assert(a[0] == b[0]);
            }
        }
    }
}

/// Lexicographic order is transitive.
pub proof fn lemma_lex_transitive(a: Seq<char>, b: Seq<char>, c: Seq<char>)
    requires
        lex_lt(a, b),
        lex_lt(b, c),
    ensures
        lex_lt(a, c),
    decreases a.len() + b.len() + c.len(),
{
    if c.len() == 0 {
        assert(!lex_lt(b, c));
    } else if a.len() == 0 {
    } else {
        if a[0] == b[0] && b[0] == c[0] {
            lemma_lex_transitive(a.drop_first(), b.drop_first(), c.drop_first());
        }
    }
}

/// Three-way comparison of the tails of two string slices, starting at
/// character position `i`.
fn str_cmp_from(a: &str, b: &str, i: usize) -> (ord: KeyCmp)
    requires
        i <= a@.len(),
        i <= b@.len(),
    ensures
        ord is Less ==> lex_lt(a@.skip(i as int), b@.skip(i as int)),
        ord is Equal ==> a@.skip(i as int) == b@.skip(i as int),
        ord is Greater ==> lex_lt(b@.skip(i as int), a@.skip(i as int)),
    decreases a@.len() - i,
{
    let la = a.unicode_len();
    let lb = b.unicode_len();
    if i == la && i == lb {
        proof {
            assert(a@.skip(i as int) =~= b@.skip(i as int));
        }
        KeyCmp::Equal
    } else if i == la {
        proof {
            assert(a@.skip(i as int).len() == 0);
            assert(b@.skip(i as int).len() > 0);
        }
        KeyCmp::Less
    } else if i == lb {
        KeyCmp::Greater
    } else {
        let ca = a.get_char(i);
        let cb = b.get_char(i);
        proof {
            assert(a@.skip(i as int)[0] == a@[i as int]);
            assert(b@.skip(i as int)[0] == b@[i as int]);
        }
        if ca == cb {
            let ord = str_cmp_from(a, b, i + 1);
            proof {
                assert(a@.skip(i as int).drop_first() =~= a@.skip(i + 1));
                assert(b@.skip(i as int).drop_first() =~= b@.skip(i + 1));
                if ord is Equal {
                    assert forall|j: int|
                        0 <= j < a@.skip(i as int).len() implies a@.skip(i as int)[j] == b@.skip(
                        i as int,
                    )[j] by {
                        if j > 0 {
                            assert(a@.skip(i as int)[j] == a@.skip(i + 1)[j - 1]);
                            assert(b@.skip(i as int)[j] == b@.skip(i + 1)[j - 1]);
                        }
                    }
                    assert(a@.skip(i as int) =~= b@.skip(i as int));
                }
            }
            ord
        } else if (ca as u32) < (cb as u32) {
            KeyCmp::Less
        } else {
            proof {
                if (ca as u32) == (cb as u32) {
                    assert(ca == cb) by {
                        assert((ca as u32) as char == ca);
                        assert((cb as u32) as char == cb);
                    }
                }
            }
            KeyCmp::Greater
        }
    }
}

/// Three-way lexicographic comparison of two string slices.
pub fn str_cmp(a: &str, b: &str) -> (ord: KeyCmp)
    ensures
        ord is Less ==> lex_lt(a@, b@),
        ord is Equal ==> a@ == b@,
        ord is Greater ==> lex_lt(b@, a@),
{
    let ord = str_cmp_from(a, b, 0);
    proof {
        assert(a@.skip(0) =~= a@);
        assert(b@.skip(0) =~= b@);
    }
    ord
}

impl OrdKey for String {
    open spec fn lt(self, other: Self) -> bool {
        lex_lt(self@, other@)
    }

    open spec fn eqv(self, other: Self) -> bool {
        self@ == other@
    }

    proof fn lemma_trichotomy(a: Self, b: Self) {
        lemma_lex_trichotomy(a@, b@);
    }

    proof fn lemma_lt_transitive(a: Self, b: Self, c: Self) {
        lemma_lex_transitive(a@, b@, c@);
    }

    proof fn lemma_eqv_congruent(a: Self, b: Self, c: Self) {
    }

    fn cmp_key(&self, other: &Self) -> (ord: KeyCmp) {
        str_cmp(self.as_str(), other.as_str())
    }
}

} // verus!
