//! Lists of texts in strictly ascending order.

use vstd::prelude::*;

use crate::text::{chars_of, texts};

verus! {

/// `a` comes before `b` in the order of their characters, and a text comes
/// before its proper extensions.
pub open spec fn precedes(a: Seq<char>, b: Seq<char>) -> bool
    decreases a.len(),
{
    if b.len() == 0 {
        false
    } else if a.len() == 0 {
        true
    } else {
        a[0] < b[0] || (a[0] == b[0] && precedes(a.drop_first(), b.drop_first()))
    }
}

/// Each text comes before all that follow it, so none occurs twice.
pub open spec fn ascending(list: Seq<Seq<char>>) -> bool {
    forall|i: int, j: int|
        0 <= i < j < list.len() ==> precedes(#[trigger] list[i], #[trigger] list[j])
}

/// No text comes before itself.
pub proof fn lemma_precedes_irreflexive(a: Seq<char>)
    ensures
        !precedes(a, a),
    decreases a.len(),
{
    if a.len() > 0 {
        lemma_precedes_irreflexive(a.drop_first());
    }
}

/// What comes before a text comes before all that follow it.
pub proof fn lemma_precedes_transitive(a: Seq<char>, b: Seq<char>, c: Seq<char>)
    requires
        precedes(a, b),
        precedes(b, c),
    ensures
        precedes(a, c),
    decreases a.len(),
{
    if a.len() > 0 && a[0] == b[0] && b[0] == c[0] {
        lemma_precedes_transitive(a.drop_first(), b.drop_first(), c.drop_first());
    }
}

/// Two lists in ascending order with the same members are the same list.
pub proof fn lemma_ascending_unique(a: Seq<Seq<char>>, b: Seq<Seq<char>>)
    requires
        ascending(a),
        ascending(b),
        forall|t: Seq<char>| a.contains(t) <==> b.contains(t),
    ensures
        a == b,
    decreases a.len(),
{
    if a.len() == 0 {
        if b.len() > 0 {
            assert(b.contains(b[0]));
            assert(a.contains(b[0]));
        }
        assert(a =~= b);
    } else {
        assert(a.contains(a.last()));
        assert(b.contains(a.last()));
        let i = choose|i: int| 0 <= i < b.len() && b[i] == a.last();
        assert(b.contains(b.last()));
        assert(a.contains(b.last()));
        let j = choose|j: int| 0 <= j < a.len() && a[j] == b.last();
        if i < b.len() - 1 && j < a.len() - 1 {
            assert(precedes(b[i], b[b.len() - 1]));
            assert(precedes(a[j], a[a.len() - 1]));
            lemma_precedes_transitive(a.last(), b.last(), a.last());
            lemma_precedes_irreflexive(a.last());
        }
        assert(a.last() == b.last());
        assert forall|t: Seq<char>| a.drop_last().contains(t) <==> b.drop_last().contains(t) by {
            lemma_drop_last_members(a, t);
            lemma_drop_last_members(b, t);
        }
        lemma_ascending_unique(a.drop_last(), b.drop_last());
        assert(a =~= a.drop_last().push(a.last()));
        assert(b =~= b.drop_last().push(b.last()));
    }
}

proof fn lemma_drop_last_members(list: Seq<Seq<char>>, t: Seq<char>)
    requires
        ascending(list),
        list.len() > 0,
    ensures
        list.drop_last().contains(t) <==> list.contains(t) && t != list.last(),
{
    if list.drop_last().contains(t) {
        let k = choose|k: int| 0 <= k < list.len() - 1 && list.drop_last()[k] == t;
        assert(list[k] == t);
        assert(precedes(list[k], list[list.len() - 1]));
        lemma_precedes_irreflexive(t);
    }
    if list.contains(t) && t != list.last() {
        let k = choose|k: int| 0 <= k < list.len() && list[k] == t;
        assert(list.drop_last()[k] == t);
    }
}

/// How two texts stand to each other in the order of their characters.
enum Position {
    Before,
    Same,
    After,
}

fn position(a: &str, b: &str) -> (r: Position)
    ensures
        match r {
            Position::Before => precedes(a@, b@),
            Position::Same => a@ == b@,
            Position::After => precedes(b@, a@),
        },
{
    let x = chars_of(a);
    let y = chars_of(b);
    let mut i: usize = 0;
    assert(x@.skip(0) =~= x@);
    assert(y@.skip(0) =~= y@);
    while i < x.len() && i < y.len()
        invariant
            i <= x.len(),
            i <= y.len(),
            x@ == a@,
            y@ == b@,
            x@.take(i as int) =~= y@.take(i as int),
            precedes(x@, y@) == precedes(x@.skip(i as int), y@.skip(i as int)),
            precedes(y@, x@) == precedes(y@.skip(i as int), x@.skip(i as int)),
        decreases x.len() - i,
    {
        if x[i] < y[i] {
            return Position::Before;
        }
        if y[i] < x[i] {
            return Position::After;
        }
        assert(x@.skip(i as int).drop_first() =~= x@.skip(i + 1));
        assert(y@.skip(i as int).drop_first() =~= y@.skip(i + 1));
        assert(x@.take(i + 1) =~= x@.take(i as int).push(x@[i as int]));
        assert(y@.take(i + 1) =~= y@.take(i as int).push(y@[i as int]));
        i += 1;
    }
    if i < x.len() {
        Position::After
    } else if i < y.len() {
        Position::Before
    } else {
        assert(x@ =~= x@.take(i as int));
        assert(y@ =~= y@.take(i as int));
        Position::Same
    }
}

/// Puts a text in its place in an ascending list, unless it is there already.
pub fn insert_ascending(list: &mut Vec<String>, s: &str)
    requires
        ascending(texts(old(list)@)),
    ensures
        ascending(texts(final(list)@)),
        forall|t: Seq<char>| #[trigger]
            texts(final(list)@).contains(t) <==> texts(old(list)@).contains(t) || t == s@,
{
    let ghost before = texts(list@);
    let mut i: usize = 0;
    while i < list.len()
        invariant
            i <= list.len(),
            *list == *old(list),
            before == texts(list@),
            ascending(before),
            forall|k: int| 0 <= k < i ==> precedes(#[trigger] before[k], s@),
        decreases list.len() - i,
    {
        match position(list[i].as_str(), s) {
            Position::Before => {
                assert(before[i as int] == list@[i as int]@);
            },
            Position::Same => {
                assert(before[i as int] == s@);
                return ;
            },
            Position::After => {
                assert(before[i as int] == list@[i as int]@);
                list.insert(i, s.to_owned());
                proof {
                    lemma_inserted(before, i as int, s@);
                }
                assert(texts(list@) =~= before.insert(i as int, s@));
                return ;
            },
        }
        i += 1;
    }
    list.push(s.to_owned());
    proof {
        lemma_inserted(before, i as int, s@);
    }
    assert(texts(list@) =~= before.insert(i as int, s@));
}

proof fn lemma_inserted(list: Seq<Seq<char>>, i: int, s: Seq<char>)
    requires
        ascending(list),
        0 <= i <= list.len(),
        forall|k: int| 0 <= k < i ==> precedes(#[trigger] list[k], s),
        i < list.len() ==> precedes(s, list[i]),
    ensures
        ascending(list.insert(i, s)),
        forall|t: Seq<char>| #[trigger]
            list.insert(i, s).contains(t) <==> list.contains(t) || t == s,
{
    let after = list.insert(i, s);
    assert forall|k: int| i <= k < list.len() implies precedes(s, #[trigger] list[k]) by {
        if k > i {
            lemma_precedes_transitive(s, list[i], list[k]);
        }
    }
    assert forall|a: int, b: int| 0 <= a < b < after.len() implies precedes(
        #[trigger] after[a],
        #[trigger] after[b],
    ) by {
        let x = if a < i { a } else { a - 1 };
        let y = if b < i { b } else { b - 1 };
        if a == i {
            assert(after[b] == list[b - 1]);
        } else if b == i {
            assert(after[a] == list[a]);
        } else {
            assert(after[a] == list[x]);
            assert(after[b] == list[y]);
        }
    }
    assert forall|t: Seq<char>| #[trigger] after.contains(t) <==> list.contains(t) || t == s by {
        if after.contains(t) {
            let k = choose|k: int| 0 <= k < after.len() && after[k] == t;
            if k < i {
                assert(list[k] == t);
            } else if k > i {
                assert(list[k - 1] == t);
            }
        }
        if list.contains(t) {
            let k = choose|k: int| 0 <= k < list.len() && list[k] == t;
            if k < i {
                assert(after[k] == t);
            } else {
                assert(after[k + 1] == t);
            }
        }
        assert(after[i] == s);
    }
}

} // verus!
