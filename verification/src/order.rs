//! The order in which names are listed: by character, a prefix before what it
//! is a prefix of.

use vstd::prelude::*;
use crate::text::{to_chars, views};

verus! {

/// Whether `a` comes before `b` or equals it: at the first position where they
/// differ `a` has the smaller character, or `a` ends there.
pub open spec fn lex_le(a: Seq<char>, b: Seq<char>) -> bool
    decreases a.len(),
{
    if a.len() == 0 {
        true
    } else if b.len() == 0 {
        false
    } else if a[0] != b[0] {
        (a[0] as int) < (b[0] as int)
    } else {
        lex_le(a.drop_first(), b.drop_first())
    }
}

/// Whether each name comes before or equals every name after it.
pub open spec fn ascending(names: Seq<Seq<char>>) -> bool {
    forall|i: int, j: int| 0 <= i < j < names.len() ==> lex_le(#[trigger] names[i], #[trigger] names[j])
}

/// Every text comes before or equals itself.
pub proof fn lemma_lex_le_reflexive(a: Seq<char>)
    ensures
        lex_le(a, a),
    decreases a.len(),
{
    if a.len() > 0 {
        lemma_lex_le_reflexive(a.drop_first());
    }
}

/// Of two texts one comes before or equals the other.
pub proof fn lemma_lex_le_total(a: Seq<char>, b: Seq<char>)
    ensures
        lex_le(a, b) || lex_le(b, a),
    decreases a.len(),
{
    if a.len() > 0 && b.len() > 0 {
        if a[0] == b[0] {
            lemma_lex_le_total(a.drop_first(), b.drop_first());
        }
    }
}

/// Two texts that each come before or equal the other are the same.
pub proof fn lemma_lex_le_antisymmetric(a: Seq<char>, b: Seq<char>)
    requires
        lex_le(a, b),
        lex_le(b, a),
    ensures
        a == b,
    decreases a.len(),
{
    if a.len() > 0 && b.len() > 0 {
        lemma_lex_le_antisymmetric(a.drop_first(), b.drop_first());
        assert(a == seq![a[0]] + a.drop_first());
        assert(b == seq![b[0]] + b.drop_first());
    } else {
        assert(a.len() == 0 && b.len() == 0);
        assert(a == b);
    }
}

/// The order passes on: from `a` to `b` and from `b` to `c` gives `a` to `c`.
pub proof fn lemma_lex_le_transitive(a: Seq<char>, b: Seq<char>, c: Seq<char>)
    requires
        lex_le(a, b),
        lex_le(b, c),
    ensures
        lex_le(a, c),
    decreases a.len(),
{
    if a.len() > 0 && b.len() > 0 && c.len() > 0 && a[0] == b[0] && b[0] == c[0] {
        lemma_lex_le_transitive(a.drop_first(), b.drop_first(), c.drop_first());
    }
}

/// Two ascending sequences that hold the same names, each as often as the
/// other, are the same sequence: the order of a listing is fixed by what it
/// lists.
pub proof fn law_ascending_is_unique(a: Seq<Seq<char>>, b: Seq<Seq<char>>)
    requires
        ascending(a),
        ascending(b),
        a.to_multiset() == b.to_multiset(),
    ensures
        a == b,
{
    let leq = |x: Seq<char>, y: Seq<char>| lex_le(x, y);
    assert forall|x: Seq<char>| #[trigger] leq(x, x) by {
        lemma_lex_le_reflexive(x);
    }
    assert forall|x: Seq<char>, y: Seq<char>| #[trigger] leq(x, y) && #[trigger] leq(y, x) implies x
        == y by {
        lemma_lex_le_antisymmetric(x, y);
    }
    assert forall|x: Seq<char>, y: Seq<char>, z: Seq<char>| #[trigger] leq(x, y) && #[trigger] leq(
        y,
        z,
    ) implies leq(x, z) by {
        lemma_lex_le_transitive(x, y, z);
    }
    assert forall|x: Seq<char>, y: Seq<char>| #[trigger] leq(x, y) || #[trigger] leq(y, x) by {
        lemma_lex_le_total(x, y);
    }
    assert(vstd::relations::sorted_by(a, leq)) by {
        assert forall|i: int, j: int| 0 <= i < j < a.len() implies #[trigger] leq(a[i], a[j]) by {}
    }
    assert(vstd::relations::sorted_by(b, leq)) by {
        assert forall|i: int, j: int| 0 <= i < j < b.len() implies #[trigger] leq(b[i], b[j]) by {}
    }
    vstd::seq_lib::lemma_sorted_unique(a, b, leq);
}

/// Whether `a` comes before `b` or equals it.
pub fn text_le(a: &Vec<char>, b: &Vec<char>) -> (le: bool)
    ensures
        le == lex_le(a@, b@),
{
    let mut i: usize = 0;
    proof {
        assert(a@.skip(0) == a@);
        assert(b@.skip(0) == b@);
    }
    while i < a.len() && i < b.len()
        invariant
            i <= a.len(),
            i <= b.len(),
            lex_le(a@, b@) == lex_le(a@.skip(i as int), b@.skip(i as int)),
        decreases a.len() - i,
    {
        proof {
            assert(a@.skip(i as int)[0] == a@[i as int]);
            assert(b@.skip(i as int)[0] == b@[i as int]);
            assert(a@.skip(i as int).drop_first() == a@.skip(i + 1));
            assert(b@.skip(i as int).drop_first() == b@.skip(i + 1));
        }
        let x: char = a[i];
        let y: char = b[i];
        if x != y {
            return x < y;
        }
        i = i + 1;
    }
    i >= a.len()
}

/// Inserting `x` into a sequence adds one `x` to what the sequence holds.
proof fn lemma_insert_multiset(s: Seq<Seq<char>>, pos: int, x: Seq<char>)
    requires
        0 <= pos <= s.len(),
    ensures
        s.insert(pos, x).to_multiset() == s.to_multiset().insert(x),
{
    let after = s.insert(pos, x);
    after.to_multiset_ensures();
    assert(after[pos] == x);
    assert(after.remove(pos) == s);
    assert(after.to_multiset().count(x) > 0) by {
        assert(after.contains(x));
    }
    assert(after.to_multiset() =~= s.to_multiset().insert(x));
}

/// The names in ascending order. Names that are equal stay as many as they
/// were.
pub fn sort_names(names: &Vec<String>) -> (sorted: Vec<String>)
    ensures
        ascending(views(sorted@)),
        views(sorted@).to_multiset() == views(names@).to_multiset(),
{
    let mut sorted: Vec<String> = Vec::new();
    let mut keys: Vec<Vec<char>> = Vec::new();
    let mut i: usize = 0;
    proof {
        assert(views(names@).take(0) == Seq::<Seq<char>>::empty());
        assert(views(sorted@) == Seq::<Seq<char>>::empty());
    }
    while i < names.len()
        invariant
            i <= names.len(),
            keys.len() == sorted.len(),
            forall|j: int| 0 <= j < keys.len() ==> (#[trigger] keys[j])@ == sorted[j]@,
            ascending(views(sorted@)),
            views(sorted@).to_multiset() == views(names@).take(i as int).to_multiset(),
        decreases names.len() - i,
    {
        let name = names[i].clone();
        let key = to_chars(name.as_str());
        let mut pos: usize = 0;
        while pos < keys.len() && text_le(&keys[pos], &key)
            invariant
                pos <= keys.len(),
                keys.len() == sorted.len(),
                forall|j: int| 0 <= j < keys.len() ==> (#[trigger] keys[j])@ == sorted[j]@,
                forall|j: int| 0 <= j < pos ==> lex_le(#[trigger] views(sorted@)[j], key@),
            decreases keys.len() - pos,
        {
            pos = pos + 1;
        }
        proof {
            let before = views(sorted@);
            let after = before.insert(pos as int, key@);
            assert(views(sorted@.insert(pos as int, name)) == after);
            lemma_insert_multiset(before, pos as int, key@);
            views(names@).take(i as int).to_multiset_ensures();
            assert(views(names@).take(i + 1) == views(names@).take(i as int).push(key@));
            assert forall|a: int, b: int| 0 <= a < b < after.len() implies lex_le(
                #[trigger] after[a],
                #[trigger] after[b],
            ) by {
                if b == pos {
                    assert(after[a] == before[a]);
                } else if a == pos {
                    assert(after[b] == before[b - 1]);
                    assert(before[pos as int] == keys[pos as int]@);
                    lemma_lex_le_total(before[pos as int], key@);
                    if b - 1 > pos {
                        lemma_lex_le_transitive(key@, before[pos as int], before[b - 1]);
                    }
                } else if a < pos && b < pos {
                    assert(after[a] == before[a] && after[b] == before[b]);
                } else if a < pos {
                    assert(after[a] == before[a] && after[b] == before[b - 1]);
                } else {
                    assert(after[a] == before[a - 1] && after[b] == before[b - 1]);
                }
            }
        }
        sorted.insert(pos, name);
        keys.insert(pos, key);
        i = i + 1;
    }
    proof {
        assert(views(names@).take(names.len() as int) == views(names@));
    }
    sorted
}

} // verus!
