//! Lexicographic order on sequences of integers, and the three-way
//! comparison of strings by their characters (the order of `String`'s `Ord`).
use vstd::prelude::*;

verus! {

/// `a` comes strictly before `b`: at the first position where they differ
/// `a` holds the smaller element, or `a` is a proper prefix of `b`.
pub open spec fn lex_lt(a: Seq<int>, b: Seq<int>) -> bool
    decreases a.len(),
{
    if b.len() == 0 {
        false
    } else if a.len() == 0 {
        true
    } else if a[0] < b[0] {
        true
    } else if a[0] > b[0] {
        false
    } else {
        lex_lt(a.drop_first(), b.drop_first())
    }
}

/// The characters of a string as integers (their code points).
pub open spec fn char_key(s: Seq<char>) -> Seq<int> {
    s.map_values(|c: char| c as int)
}

/// String order: code point by code point, a proper prefix first.
pub open spec fn str_lt(a: Seq<char>, b: Seq<char>) -> bool {
    lex_lt(char_key(a), char_key(b))
}

/// The outcome of a three-way comparison.
#[derive(Debug, Clone, Copy, PartialEq, Eq, Structural)]
pub enum Cmp {
    Less,
    Equal,
    Greater,
}

/// No sequence comes before itself.
pub proof fn lemma_lex_irreflexive(a: Seq<int>)
    ensures
        !lex_lt(a, a),
    decreases a.len(),
{
    if a.len() > 0 {
        lemma_lex_irreflexive(a.drop_first());
    }
}

/// The order is asymmetric.
pub proof fn lemma_lex_asymmetric(a: Seq<int>, b: Seq<int>)
    requires
        lex_lt(a, b),
    ensures
        !lex_lt(b, a),
    decreases a.len(),
{
    if a.len() > 0 && b.len() > 0 && a[0] == b[0] {
        lemma_lex_asymmetric(a.drop_first(), b.drop_first());
    }
}

/// The order is transitive.
pub proof fn lemma_lex_transitive(a: Seq<int>, b: Seq<int>, c: Seq<int>)
    requires
        lex_lt(a, b),
        lex_lt(b, c),
    ensures
        lex_lt(a, c),
    decreases a.len(),
{
    if a.len() > 0 && b.len() > 0 && c.len() > 0 && a[0] == b[0] && b[0] == c[0] {
        lemma_lex_transitive(a.drop_first(), b.drop_first(), c.drop_first());
    }
}

/// Equal up to `i`, then smaller at `i`: strictly before.
pub proof fn lemma_lex_differ_at(a: Seq<int>, b: Seq<int>, i: int)
    requires
        0 <= i < a.len(),
        i < b.len(),
        forall|j: int| 0 <= j < i ==> a[j] == b[j],
        a[i] < b[i],
    ensures
        lex_lt(a, b),
    decreases i,
{
    if i > 0 {
        lemma_lex_differ_at(a.drop_first(), b.drop_first(), i - 1);
    }
}

/// A proper prefix comes first.
pub proof fn lemma_lex_prefix(a: Seq<int>, b: Seq<int>)
    requires
        a.len() < b.len(),
        forall|j: int| 0 <= j < a.len() ==> a[j] == b[j],
    ensures
        lex_lt(a, b),
    decreases a.len(),
{
    if a.len() > 0 {
        lemma_lex_prefix(a.drop_first(), b.drop_first());
    }
}

/// Compares two strings character by character.
pub fn compare_str(a: &str, b: &str) -> (r: Cmp)
    ensures
        r == Cmp::Less <==> str_lt(a@, b@),
        r == Cmp::Equal <==> a@ == b@,
        r == Cmp::Greater <==> str_lt(b@, a@),
{
    let na = a.unicode_len();
    let nb = b.unicode_len();
    let ghost ka = char_key(a@);
    let ghost kb = char_key(b@);
    let mut i: usize = 0;
    while i < na && i < nb
        invariant
            na == a@.len(),
            nb == b@.len(),
            ka == char_key(a@),
            kb == char_key(b@),
            i <= na,
            i <= nb,
            forall|j: int| 0 <= j < i ==> a@[j] == b@[j],
        decreases na - i,
    {
        let ca = a.get_char(i);
        let cb = b.get_char(i);
        if (ca as u32) < (cb as u32) {
            proof {
                lemma_lex_differ_at(ka, kb, i as int);
                lemma_lex_asymmetric(ka, kb);
                lemma_lex_irreflexive(ka);
            }
            return Cmp::Less;
        }
        if (cb as u32) < (ca as u32) {
            proof {
                lemma_lex_differ_at(kb, ka, i as int);
                lemma_lex_asymmetric(kb, ka);
                lemma_lex_irreflexive(ka);
            }
            return Cmp::Greater;
        }
        i = i + 1;
    }
    if na < nb {
        proof {
            lemma_lex_prefix(ka, kb);
            lemma_lex_asymmetric(ka, kb);
            lemma_lex_irreflexive(ka);
        }
        Cmp::Less
    } else if nb < na {
        proof {
            lemma_lex_prefix(kb, ka);
            lemma_lex_asymmetric(kb, ka);
            lemma_lex_irreflexive(ka);
        }
        Cmp::Greater
    } else {
        proof {
            assert(a@ =~= b@);
            lemma_lex_irreflexive(ka);
        }
        Cmp::Equal
    }
}

} // verus!
