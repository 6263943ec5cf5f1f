//! Ordering of texts by their characters, and sorted sets of texts.

use vstd::prelude::*;

verus! {

/// `a` comes strictly before `b` in lexicographic order of characters
/// (the order of `String`'s `Ord`: UTF-8 bytes compare as code points do).
pub open spec fn lex_lt(a: Seq<char>, b: Seq<char>) -> bool
    decreases a.len(),
{
    if a.len() == 0 {
        b.len() > 0
    } else if b.len() == 0 {
        false
    } else if a[0] < b[0] {
        true
    } else if a[0] == b[0] {
        lex_lt(a.drop_first(), b.drop_first())
    } else {
        false
    }
}

pub proof fn lemma_lex_irreflexive(a: Seq<char>)
    ensures
        !lex_lt(a, a),
    decreases a.len(),
{
    if a.len() > 0 {
        lemma_lex_irreflexive(a.drop_first());
    }
}

pub proof fn lemma_lex_transitive(a: Seq<char>, b: Seq<char>, c: Seq<char>)
    requires
        lex_lt(a, b),
        lex_lt(b, c),
    ensures
        lex_lt(a, c),
    decreases a.len(),
{
    if a.len() > 0 && b.len() > 0 && c.len() > 0 {
        if a[0] == b[0] && b[0] == c[0] {
            lemma_lex_transitive(a.drop_first(), b.drop_first(), c.drop_first());
        }
    }
}

/// Two different texts are ordered one way or the other.
pub proof fn lemma_lex_total(a: Seq<char>, b: Seq<char>)
    requires
        a != b,
    ensures
        lex_lt(a, b) || lex_lt(b, a),
    decreases a.len(),
{
    if a.len() > 0 && b.len() > 0 && a[0] == b[0] {
        if a.drop_first() == b.drop_first() {
            assert(a =~= seq![a[0]] + a.drop_first());
            assert(b =~= seq![b[0]] + b.drop_first());
        }
        lemma_lex_total(a.drop_first(), b.drop_first());
    } else if a.len() == 0 && b.len() == 0 {
        assert(a =~= b);
    }
}

pub proof fn lemma_lex_asymmetric(a: Seq<char>, b: Seq<char>)
    requires
        lex_lt(a, b),
    ensures
        !lex_lt(b, a),
        a != b,
    decreases a.len(),
{
    if a.len() > 0 && b.len() > 0 && a[0] == b[0] {
        lemma_lex_asymmetric(a.drop_first(), b.drop_first());
    }
    if a == b {
        lemma_lex_irreflexive(a);
    }
}

/// Compares two texts character by character.
pub fn text_lt(a: &String, b: &String) -> (r: bool)
    ensures
        r == lex_lt(a@, b@),
{
    let sa = a.as_str();
    let sb = b.as_str();
    let na = sa.unicode_len();
    let nb = sb.unicode_len();
    let mut i: usize = 0;
    assert(a@.skip(0) =~= a@);
    assert(b@.skip(0) =~= b@);
    while i < na && i < nb
        invariant
            na == a@.len(),
            nb == b@.len(),
            sa@ == a@,
            sb@ == b@,
            i <= na,
            i <= nb,
            lex_lt(a@, b@) == lex_lt(a@.skip(i as int), b@.skip(i as int)),
        decreases na - i,
    {
        let ca = sa.get_char(i);
        let cb = sb.get_char(i);
        if ca < cb {
            return true;
        }
        if ca != cb {
            return false;
        }
        proof {
            assert(a@.skip(i as int).drop_first() =~= a@.skip(i + 1));
            assert(b@.skip(i as int).drop_first() =~= b@.skip(i + 1));
        }
        i = i + 1;
    }
    i < nb
}

/// The texts of a sequence of strings.
pub open spec fn texts(v: Seq<String>) -> Seq<Seq<char>> {
    v.map_values(|s: String| s@)
}

/// Each text comes strictly before every later one.
pub open spec fn strictly_sorted(s: Seq<Seq<char>>) -> bool {
    forall|i: int, j: int| 0 <= i < j < s.len() ==> lex_lt(#[trigger] s[i], #[trigger] s[j])
}

/// Adds `s` to a strictly sorted list of texts, keeping it strictly sorted;
/// nothing changes when an equal text is already there.
pub fn insert_sorted(v: &mut Vec<String>, s: String)
    requires
        strictly_sorted(texts(old(v)@)),
    ensures
        strictly_sorted(texts(final(v)@)),
        texts(final(v)@).to_set() == texts(old(v)@).to_set().insert(s@),
{
    let ghost old_t = texts(v@);
    let mut i: usize = 0;
    let mut searching = true;
    while searching && i < v.len()
        invariant
            i <= v@.len(),
            v@ == old(v)@,
            old_t == texts(v@),
            forall|j: int| 0 <= j < i ==> lex_lt(#[trigger] old_t[j], s@),
            !searching ==> i < v@.len() && !lex_lt(old_t[i as int], s@),
        decreases v@.len() - i + (if searching {
            1int
        } else {
            0int
        }),
    {
        if text_lt(&v[i], &s) {
            i = i + 1;
        } else {
            searching = false;
        }
    }
    if i < v.len() && v[i] == s {
        proof {
            assert(texts(v@).to_set() =~= old_t.to_set().insert(s@)) by {
                assert(old_t[i as int] == s@);
            }
        }
        return;
    }
    let ghost sv = s@;
    proof {
        if i < v@.len() {
            assert(!lex_lt(old_t[i as int], s@));
            assert(old_t[i as int] != s@);
            lemma_lex_total(old_t[i as int], s@);
        }
    }
    v.insert(i, s);
    proof {
        let nt = texts(v@);
        assert(nt =~= old_t.insert(i as int, sv));
        assert forall|a: int, b: int| 0 <= a < b < nt.len() implies lex_lt(#[trigger] nt[a], #[trigger] nt[b]) by {
            if b < i {
            } else if b == i {
            } else if a < i {
                assert(nt[b] == old_t[b - 1]);
                if b - 1 > i {
                    lemma_lex_transitive(sv, old_t[i as int], old_t[b - 1]);
                }
                lemma_lex_transitive(nt[a], sv, nt[b]);
            } else if a == i {
                assert(nt[b] == old_t[b - 1]);
                if b - 1 > i {
                    lemma_lex_transitive(sv, old_t[i as int], old_t[b - 1]);
                }
            } else {
                assert(nt[a] == old_t[a - 1]);
                assert(nt[b] == old_t[b - 1]);
            }
        }
        assert forall|x: Seq<char>| nt.contains(x) <==> (old_t.contains(x) || x == sv) by {
            if nt.contains(x) {
                let j = choose|j: int| 0 <= j < nt.len() && nt[j] == x;
                if j < i {
                    assert(old_t[j] == x);
                } else if j > i {
                    assert(old_t[j - 1] == x);
                }
            }
            if old_t.contains(x) {
                let j = choose|j: int| 0 <= j < old_t.len() && old_t[j] == x;
                if j < i {
                    assert(nt[j] == x);
                } else {
                    assert(nt[j + 1] == x);
                }
            }
            if x == sv {
                assert(nt[i as int] == x);
            }
        }
        assert(nt.to_set() =~= old_t.to_set().insert(sv));
    }
}

} // verus!
