//! The order of `String` (character by character, a prefix first), its
//! laws, and sorted vectors of strings used as ordered sets.

use vstd::prelude::*;

use crate::text::chars_of;

verus! {

/// `a` sorts strictly before `b` (the order of `String`: by characters).
pub open spec fn text_lt(a: Seq<char>, b: Seq<char>) -> bool
    decreases a.len(),
{
    if b.len() == 0 {
        false
    } else if a.len() == 0 {
        true
    } else if a[0] != b[0] {
        (a[0] as int) < (b[0] as int)
    } else {
        text_lt(a.drop_first(), b.drop_first())
    }
}

/// Nothing sorts before itself.
pub proof fn lemma_text_lt_irreflexive(a: Seq<char>)
    ensures
        !text_lt(a, a),
    decreases a.len(),
{
    if a.len() > 0 {
        lemma_text_lt_irreflexive(a.drop_first());
    }
}

/// The order is transitive.
pub proof fn lemma_text_lt_transitive(a: Seq<char>, b: Seq<char>, c: Seq<char>)
    requires
        text_lt(a, b),
        text_lt(b, c),
    ensures
        text_lt(a, c),
    decreases a.len(),
{
    if a.len() > 0 && b.len() > 0 && c.len() > 0 && a[0] == b[0] && b[0] == c[0] {
        lemma_text_lt_transitive(a.drop_first(), b.drop_first(), c.drop_first());
    }
}

/// Two texts are equal or ordered one way or the other, and not both ways.
pub proof fn lemma_text_lt_total(a: Seq<char>, b: Seq<char>)
    ensures
        a == b || text_lt(a, b) || text_lt(b, a),
        !(text_lt(a, b) && text_lt(b, a)),
    decreases a.len(),
{
    if a.len() > 0 && b.len() > 0 {
        if a[0] == b[0] {
            lemma_text_lt_total(a.drop_first(), b.drop_first());
            if a.drop_first() == b.drop_first() {
                assert(a =~= seq![a[0]] + a.drop_first());
                assert(b =~= seq![b[0]] + b.drop_first());
            }
        } else {
            assert((a[0] as int) != (b[0] as int));
        }
    } else if a.len() == 0 && b.len() == 0 {
        assert(a =~= b);
    }
}

proof fn lemma_text_lt_skip(a: Seq<char>, b: Seq<char>, i: int)
    requires
        0 <= i <= a.len(),
        i <= b.len(),
        a.take(i) == b.take(i),
    ensures
        text_lt(a, b) == text_lt(a.skip(i), b.skip(i)),
    decreases i,
{
    if i > 0 {
        assert(a[0] == a.take(i)[0]);
        assert(b[0] == b.take(i)[0]);
        assert(a.drop_first().take(i - 1) =~= a.take(i).drop_first());
        assert(b.drop_first().take(i - 1) =~= b.take(i).drop_first());
        lemma_text_lt_skip(a.drop_first(), b.drop_first(), i - 1);
        assert(a.drop_first().skip(i - 1) =~= a.skip(i));
        assert(b.drop_first().skip(i - 1) =~= b.skip(i));
    } else {
        assert(a.skip(0) =~= a);
        assert(b.skip(0) =~= b);
    }
}

/// Whether `a` sorts strictly before `b`.
pub fn text_less(a: &str, b: &str) -> (r: bool)
    ensures
        r == text_lt(a@, b@),
{
    let va = chars_of(a);
    let vb = chars_of(b);
    let mut i: usize = 0;
    while i < va.len() && i < vb.len() && va[i] == vb[i]
        invariant
            i <= va@.len(),
            i <= vb@.len(),
            va@ == a@,
            vb@ == b@,
            va@.take(i as int) == vb@.take(i as int),
        decreases va@.len() - i,
    {
        assert(va@.take(i + 1) =~= va@.take(i as int).push(va@[i as int]));
        assert(vb@.take(i + 1) =~= vb@.take(i as int).push(vb@[i as int]));
        i = i + 1;
    }
    proof {
        lemma_text_lt_skip(a@, b@, i as int);
    }
    if i == vb.len() {
        false
    } else if i == va.len() {
        true
    } else {
        assert(a@.skip(i as int)[0] == va@[i as int]);
        assert(b@.skip(i as int)[0] == vb@[i as int]);
        let x = va[i];
        let y = vb[i];
        x < y
    }
}

/// Strings in strictly increasing order: an ordered set.
pub open spec fn names_sorted(s: Seq<String>) -> bool {
    forall|i: int, j: int| 0 <= i < j < s.len() ==> text_lt(#[trigger] s[i]@, #[trigger] s[j]@)
}

/// The texts of a vector of strings, as a set.
pub open spec fn name_set(s: Seq<String>) -> Set<Seq<char>> {
    Set::new(|t: Seq<char>| exists|i: int| 0 <= i < s.len() && (#[trigger] s[i])@ == t)
}

/// Inserts `name` into an ordered set of strings (nothing if present).
pub fn insert_name_sorted(names: &mut Vec<String>, name: String)
    requires
        names_sorted(old(names)@),
    ensures
        names_sorted(final(names)@),
        name_set(final(names)@) == name_set(old(names)@).insert(name@),
{
    let ghost old_s = names@;
    let mut i: usize = 0;
    while i < names.len()
        invariant
            i <= names@.len(),
            names@ == old_s,
            names_sorted(old_s),
            forall|k: int| 0 <= k < i ==> text_lt(#[trigger] old_s[k]@, name@),
        ensures
            i <= names@.len(),
            names@ == old_s,
            forall|k: int| 0 <= k < i ==> text_lt(#[trigger] old_s[k]@, name@),
            i < names@.len() ==> !text_lt(old_s[i as int]@, name@),
        decreases names@.len() - i,
    {
        if !text_less(names[i].as_str(), name.as_str()) {
            break;
        }
        i = i + 1;
    }
    if i < names.len() && names[i] == name {
        assert(name_set(names@) =~= name_set(old_s).insert(name@));
        return;
    }
    proof {
        if i < old_s.len() {
            lemma_text_lt_total(old_s[i as int]@, name@);
        }
    }
    let ghost nv = name@;
    assert forall|k: int| i <= k < old_s.len() implies text_lt(nv, #[trigger] old_s[k]@) by {
        if k > i {
            lemma_text_lt_transitive(nv, old_s[i as int]@, old_s[k]@);
        }
    }
    names.insert(i, name);
    let ghost new_s = names@;
    assert forall|a: int, b: int| 0 <= a < b < new_s.len() implies text_lt(
        #[trigger] new_s[a]@,
        #[trigger] new_s[b]@,
    ) by {
        if b < i {
            assert(new_s[a] == old_s[a] && new_s[b] == old_s[b]);
        } else if b == i {
            assert(new_s[a] == old_s[a]);
        } else if a > i {
            assert(new_s[a] == old_s[a - 1] && new_s[b] == old_s[b - 1]);
        } else if a == i {
            assert(new_s[b] == old_s[b - 1]);
        } else {
            assert(new_s[a] == old_s[a] && new_s[b] == old_s[b - 1]);
            lemma_text_lt_transitive(old_s[a]@, nv, old_s[b - 1]@);
        }
    }
    assert(name_set(new_s) =~= name_set(old_s).insert(nv)) by {
        assert forall|t: Seq<char>| name_set(old_s).insert(nv).contains(t) implies name_set(
            new_s,
        ).contains(t) by {
            if t == nv {
                assert(new_s[i as int]@ == t);
            } else {
                let k = choose|k: int| 0 <= k < old_s.len() && (#[trigger] old_s[k])@ == t;
                if k < i {
                    assert(new_s[k] == old_s[k]);
                } else {
                    assert(new_s[k + 1] == old_s[k]);
                }
            }
        }
        assert forall|t: Seq<char>| name_set(new_s).contains(t) implies name_set(
            old_s,
        ).insert(nv).contains(t) by {
            let k = choose|k: int| 0 <= k < new_s.len() && (#[trigger] new_s[k])@ == t;
            if k < i {
                assert(new_s[k] == old_s[k]);
            } else if k > i {
                assert(new_s[k] == old_s[k - 1]);
            }
        }
    }
}


// ---------------------------------------------------------------------------
// Pairs and triples of strings, ordered field by field
// ---------------------------------------------------------------------------

/// Characters of a pair of strings.
pub open spec fn pair_view(p: (String, String)) -> (Seq<char>, Seq<char>) {
    (p.0@, p.1@)
}

/// Characters of a triple of strings.
pub open spec fn triple_view(t: (String, String, String)) -> (Seq<char>, Seq<char>, Seq<char>) {
    (t.0@, t.1@, t.2@)
}

/// Lexicographic order of pairs of texts.
pub open spec fn pair_lt(a: (Seq<char>, Seq<char>), b: (Seq<char>, Seq<char>)) -> bool {
    text_lt(a.0, b.0) || (a.0 == b.0 && text_lt(a.1, b.1))
}

/// Lexicographic order of triples of texts.
pub open spec fn triple_lt(a: (Seq<char>, Seq<char>, Seq<char>), b: (Seq<char>, Seq<char>, Seq<char>)) -> bool {
    text_lt(a.0, b.0) || (a.0 == b.0 && pair_lt((a.1, a.2), (b.1, b.2)))
}

pub proof fn lemma_pair_lt_laws(a: (Seq<char>, Seq<char>), b: (Seq<char>, Seq<char>), c: (Seq<char>, Seq<char>))
    ensures
        !pair_lt(a, a),
        a == b || pair_lt(a, b) || pair_lt(b, a),
        !(pair_lt(a, b) && pair_lt(b, a)),
        pair_lt(a, b) && pair_lt(b, c) ==> pair_lt(a, c),
{
    lemma_text_lt_irreflexive(a.0);
    lemma_text_lt_irreflexive(a.1);
    lemma_text_lt_total(a.0, b.0);
    lemma_text_lt_total(a.1, b.1);
    if pair_lt(a, b) && pair_lt(b, c) {
        if text_lt(a.0, b.0) && text_lt(b.0, c.0) {
            lemma_text_lt_transitive(a.0, b.0, c.0);
        }
        if a.0 == b.0 && b.0 == c.0 {
            lemma_text_lt_transitive(a.1, b.1, c.1);
        }
    }
}

pub proof fn lemma_triple_lt_laws(
    a: (Seq<char>, Seq<char>, Seq<char>),
    b: (Seq<char>, Seq<char>, Seq<char>),
    c: (Seq<char>, Seq<char>, Seq<char>),
)
    ensures
        !triple_lt(a, a),
        a == b || triple_lt(a, b) || triple_lt(b, a),
        !(triple_lt(a, b) && triple_lt(b, a)),
        triple_lt(a, b) && triple_lt(b, c) ==> triple_lt(a, c),
{
    lemma_text_lt_irreflexive(a.0);
    lemma_text_lt_total(a.0, b.0);
    lemma_pair_lt_laws((a.1, a.2), (b.1, b.2), (c.1, c.2));
    if triple_lt(a, b) && triple_lt(b, c) {
        if text_lt(a.0, b.0) && text_lt(b.0, c.0) {
            lemma_text_lt_transitive(a.0, b.0, c.0);
        }
    }
}

/// Whether `a` sorts strictly before `b`, field by field.
pub fn pair_less(a: &(String, String), b: &(String, String)) -> (r: bool)
    ensures
        r == pair_lt(pair_view(*a), pair_view(*b)),
{
    text_less(a.0.as_str(), b.0.as_str()) || (a.0 == b.0 && text_less(a.1.as_str(), b.1.as_str()))
}

/// Whether `a` sorts strictly before `b`, field by field.
pub fn triple_less(a: &(String, String, String), b: &(String, String, String)) -> (r: bool)
    ensures
        r == triple_lt(triple_view(*a), triple_view(*b)),
{
    text_less(a.0.as_str(), b.0.as_str()) || (a.0 == b.0 && (text_less(a.1.as_str(), b.1.as_str())
        || (a.1 == b.1 && text_less(a.2.as_str(), b.2.as_str()))))
}

/// Pairs in strictly increasing order: an ordered set.
pub open spec fn pairs_sorted(s: Seq<(String, String)>) -> bool {
    forall|i: int, j: int| 0 <= i < j < s.len() ==> pair_lt(pair_view(#[trigger] s[i]), pair_view(#[trigger] s[j]))
}

/// The pairs of `s`, as a set of texts.
pub open spec fn pair_set(s: Seq<(String, String)>) -> Set<(Seq<char>, Seq<char>)> {
    Set::new(|t: (Seq<char>, Seq<char>)| exists|i: int| 0 <= i < s.len() && pair_view(#[trigger] s[i]) == t)
}

/// Triples in strictly increasing order: an ordered set.
pub open spec fn triples_sorted(s: Seq<(String, String, String)>) -> bool {
    forall|i: int, j: int| 0 <= i < j < s.len() ==> triple_lt(triple_view(#[trigger] s[i]), triple_view(#[trigger] s[j]))
}

/// The triples of `s`, as a set of texts.
pub open spec fn triple_set(s: Seq<(String, String, String)>) -> Set<(Seq<char>, Seq<char>, Seq<char>)> {
    Set::new(|t: (Seq<char>, Seq<char>, Seq<char>)| exists|i: int| 0 <= i < s.len() && triple_view(#[trigger] s[i]) == t)
}

/// Inserts `p` into an ordered set of pairs (nothing if present).
pub fn insert_pair_sorted(v: &mut Vec<(String, String)>, p: (String, String))
    requires
        pairs_sorted(old(v)@),
    ensures
        pairs_sorted(final(v)@),
        pair_set(final(v)@) == pair_set(old(v)@).insert(pair_view(p)),
{
    let ghost old_s = v@;
    let ghost pv = pair_view(p);
    let mut i: usize = 0;
    while i < v.len()
        invariant
            i <= v@.len(),
            v@ == old_s,
            pairs_sorted(old_s),
            pv == pair_view(p),
            forall|k: int| 0 <= k < i ==> pair_lt(pair_view(#[trigger] old_s[k]), pv),
        ensures
            i <= v@.len(),
            v@ == old_s,
            forall|k: int| 0 <= k < i ==> pair_lt(pair_view(#[trigger] old_s[k]), pv),
            i < v@.len() ==> !pair_lt(pair_view(old_s[i as int]), pv),
        decreases v@.len() - i,
    {
        let less = pair_less(&v[i], &p);
        assert(pair_view(old_s[i as int]) == pair_view(v@[i as int]));
        if !less {
            break;
        }
        i = i + 1;
    }
    if i < v.len() && v[i].0 == p.0 && v[i].1 == p.1 {
        assert(pair_set(v@) =~= pair_set(old_s).insert(pv));
        return;
    }
    proof {
        if i < old_s.len() {
            lemma_pair_lt_laws(pair_view(old_s[i as int]), pv, pv);
        }
        assert forall|k: int| i <= k < old_s.len() implies pair_lt(pv, pair_view(#[trigger] old_s[k])) by {
            if k > i {
                lemma_pair_lt_laws(pv, pair_view(old_s[i as int]), pair_view(old_s[k]));
            }
        }
    }
    v.insert(i, p);
    let ghost new_s = v@;
    assert forall|a: int, b: int| 0 <= a < b < new_s.len() implies pair_lt(
        pair_view(#[trigger] new_s[a]),
        pair_view(#[trigger] new_s[b]),
    ) by {
        if b < i {
            assert(new_s[a] == old_s[a] && new_s[b] == old_s[b]);
        } else if b == i {
            assert(new_s[a] == old_s[a]);
        } else if a > i {
            assert(new_s[a] == old_s[a - 1] && new_s[b] == old_s[b - 1]);
        } else if a == i {
            assert(new_s[b] == old_s[b - 1]);
        } else {
            assert(new_s[a] == old_s[a] && new_s[b] == old_s[b - 1]);
            lemma_pair_lt_laws(pair_view(old_s[a]), pv, pair_view(old_s[b - 1]));
        }
    }
    assert(pair_set(new_s) =~= pair_set(old_s).insert(pv)) by {
        assert forall|t: (Seq<char>, Seq<char>)| pair_set(old_s).insert(pv).contains(t) implies pair_set(
            new_s,
        ).contains(t) by {
            if t == pv {
                assert(pair_view(new_s[i as int]) == t);
            } else {
                let k = choose|k: int| 0 <= k < old_s.len() && pair_view(#[trigger] old_s[k]) == t;
                if k < i {
                    assert(new_s[k] == old_s[k]);
                } else {
                    assert(new_s[k + 1] == old_s[k]);
                }
            }
        }
        assert forall|t: (Seq<char>, Seq<char>)| pair_set(new_s).contains(t) implies pair_set(
            old_s,
        ).insert(pv).contains(t) by {
            let k = choose|k: int| 0 <= k < new_s.len() && pair_view(#[trigger] new_s[k]) == t;
            if k < i {
                assert(new_s[k] == old_s[k]);
            } else if k > i {
                assert(new_s[k] == old_s[k - 1]);
            }
        }
    }
}

/// Inserts `t` into an ordered set of triples (nothing if present).
pub fn insert_triple_sorted(v: &mut Vec<(String, String, String)>, t: (String, String, String))
    requires
        triples_sorted(old(v)@),
    ensures
        triples_sorted(final(v)@),
        triple_set(final(v)@) == triple_set(old(v)@).insert(triple_view(t)),
{
    let ghost old_s = v@;
    let ghost tv = triple_view(t);
    let mut i: usize = 0;
    while i < v.len()
        invariant
            i <= v@.len(),
            v@ == old_s,
            triples_sorted(old_s),
            tv == triple_view(t),
            forall|k: int| 0 <= k < i ==> triple_lt(triple_view(#[trigger] old_s[k]), tv),
        ensures
            i <= v@.len(),
            v@ == old_s,
            forall|k: int| 0 <= k < i ==> triple_lt(triple_view(#[trigger] old_s[k]), tv),
            i < v@.len() ==> !triple_lt(triple_view(old_s[i as int]), tv),
        decreases v@.len() - i,
    {
        let less = triple_less(&v[i], &t);
        assert(triple_view(old_s[i as int]) == triple_view(v@[i as int]));
        if !less {
            break;
        }
        i = i + 1;
    }
    if i < v.len() && v[i].0 == t.0 && v[i].1 == t.1 && v[i].2 == t.2 {
        assert(triple_set(v@) =~= triple_set(old_s).insert(tv));
        return;
    }
    proof {
        if i < old_s.len() {
            lemma_triple_lt_laws(triple_view(old_s[i as int]), tv, tv);
        }
        assert forall|k: int| i <= k < old_s.len() implies triple_lt(tv, triple_view(#[trigger] old_s[k])) by {
            if k > i {
                lemma_triple_lt_laws(tv, triple_view(old_s[i as int]), triple_view(old_s[k]));
            }
        }
    }
    v.insert(i, t);
    let ghost new_s = v@;
    assert forall|a: int, b: int| 0 <= a < b < new_s.len() implies triple_lt(
        triple_view(#[trigger] new_s[a]),
        triple_view(#[trigger] new_s[b]),
    ) by {
        if b < i {
            assert(new_s[a] == old_s[a] && new_s[b] == old_s[b]);
        } else if b == i {
            assert(new_s[a] == old_s[a]);
        } else if a > i {
            assert(new_s[a] == old_s[a - 1] && new_s[b] == old_s[b - 1]);
        } else if a == i {
            assert(new_s[b] == old_s[b - 1]);
        } else {
            assert(new_s[a] == old_s[a] && new_s[b] == old_s[b - 1]);
            lemma_triple_lt_laws(triple_view(old_s[a]), tv, triple_view(old_s[b - 1]));
        }
    }
    assert(triple_set(new_s) =~= triple_set(old_s).insert(tv)) by {
        assert forall|x: (Seq<char>, Seq<char>, Seq<char>)| triple_set(old_s).insert(tv).contains(x) implies triple_set(
            new_s,
        ).contains(x) by {
            if x == tv {
                assert(triple_view(new_s[i as int]) == x);
            } else {
                let k = choose|k: int| 0 <= k < old_s.len() && triple_view(#[trigger] old_s[k]) == x;
                if k < i {
                    assert(new_s[k] == old_s[k]);
                } else {
                    assert(new_s[k + 1] == old_s[k]);
                }
            }
        }
        assert forall|x: (Seq<char>, Seq<char>, Seq<char>)| triple_set(new_s).contains(x) implies triple_set(
            old_s,
        ).insert(tv).contains(x) by {
            let k = choose|k: int| 0 <= k < new_s.len() && triple_view(#[trigger] new_s[k]) == x;
            if k < i {
                assert(new_s[k] == old_s[k]);
            } else if k > i {
                assert(new_s[k] == old_s[k - 1]);
            }
        }
    }
}


/// Whether some string of `v` has the characters of `t`.
pub fn contains_text(v: &Vec<String>, t: &str) -> (r: bool)
    ensures
        r == name_set(v@).contains(t@),
{
    let mut i: usize = 0;
    while i < v.len()
        invariant
            i <= v@.len(),
            forall|j: int| 0 <= j < i ==> (#[trigger] v@[j])@ != t@,
        decreases v@.len() - i,
    {
        if crate::text::str_eq(v[i].as_str(), t) {
            assert(name_set(v@).contains(v@[i as int]@));
            return true;
        }
        i = i + 1;
    }
    false
}


/// Adds `name` to a set of strings kept as a vector (nothing if present).
pub fn insert_name(names: &mut Vec<String>, name: String)
    ensures
        name_set(final(names)@) == name_set(old(names)@).insert(name@),
{
    let ghost old_s = names@;
    if contains_text(names, name.as_str()) {
        assert(name_set(names@) =~= name_set(old_s).insert(name@));
        return;
    }
    let ghost nv = name@;
    names.push(name);
    assert(name_set(names@) =~= name_set(old_s).insert(nv)) by {
        assert forall|t: Seq<char>| name_set(names@).contains(t) implies name_set(old_s).insert(nv).contains(t) by {
            let k = choose|k: int| 0 <= k < names@.len() && (#[trigger] names@[k])@ == t;
            if k < old_s.len() {
                assert(names@[k] == old_s[k]);
            }
        }
        assert forall|t: Seq<char>| name_set(old_s).insert(nv).contains(t) implies name_set(names@).contains(t) by {
            if t == nv {
                assert(names@[old_s.len() as int]@ == t);
            } else {
                let k = choose|k: int| 0 <= k < old_s.len() && (#[trigger] old_s[k])@ == t;
                assert(names@[k] == old_s[k]);
            }
        }
    }
}


/// Whether `v` holds the pair `(a, b)`.
pub fn contains_pair(v: &Vec<(String, String)>, a: &str, b: &str) -> (r: bool)
    ensures
        r == pair_set(v@).contains((a@, b@)),
{
    let mut i: usize = 0;
    while i < v.len()
        invariant
            i <= v@.len(),
            forall|j: int| 0 <= j < i ==> pair_view(#[trigger] v@[j]) != (a@, b@),
        decreases v@.len() - i,
    {
        if crate::text::str_eq(v[i].0.as_str(), a) && crate::text::str_eq(v[i].1.as_str(), b) {
            assert(pair_view(v@[i as int]) == (a@, b@));
            return true;
        }
        i = i + 1;
    }
    false
}

} // verus!
