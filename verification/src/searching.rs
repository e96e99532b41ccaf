//! Facts about searching in concatenated texts and about their lines.

use vstd::prelude::*;

use crate::text::{
    find, has_text, lemma_find, lemma_find_some, lines, occurs_at, replaced, without_return,
};

verus! {

/// An occurrence is one character after the other.
pub proof fn lemma_occurs_chars(s: Seq<char>, pat: Seq<char>, i: int)
    ensures
        occurs_at(s, pat, i) <==> {
            &&& 0 <= i
            &&& i + pat.len() <= s.len()
            &&& forall|k: int| 0 <= k < pat.len() ==> #[trigger] pat[k] == s[i + k]
        },
{
    if 0 <= i && i + pat.len() <= s.len() {
        let part = s.subrange(i, i + pat.len());
        if part == pat {
            assert forall|k: int| 0 <= k < pat.len() implies #[trigger] pat[k] == s[i + k] by {
                assert(part[k] == s[i + k]);
            }
        }
        if forall|k: int| 0 <= k < pat.len() ==> #[trigger] pat[k] == s[i + k] {
            assert(part =~= pat);
        }
    }
}

/// An occurrence that ends in the first part is one of the first part.
pub proof fn lemma_occurs_left(x: Seq<char>, y: Seq<char>, pat: Seq<char>, i: int)
    requires
        i + pat.len() <= x.len(),
    ensures
        occurs_at(x + y, pat, i) <==> occurs_at(x, pat, i),
{
    if 0 <= i {
        assert((x + y).subrange(i, i + pat.len()) =~= x.subrange(i, i + pat.len()));
    }
}

/// An occurrence that begins in the second part is one of the second part.
pub proof fn lemma_occurs_right(x: Seq<char>, y: Seq<char>, pat: Seq<char>, i: int)
    requires
        i >= x.len(),
    ensures
        occurs_at(x + y, pat, i) <==> occurs_at(y, pat, i - x.len()),
{
    if i + pat.len() <= x.len() + y.len() {
        assert((x + y).subrange(i, i + pat.len()) =~= y.subrange(
            i - x.len(),
            i - x.len() + pat.len(),
        ));
    }
}

/// What is found in the first part is found in the whole.
pub proof fn lemma_find_left(x: Seq<char>, y: Seq<char>, pat: Seq<char>)
    requires
        find(x, pat) is Some,
    ensures
        find(x + y, pat) == find(x, pat),
{
    lemma_find(x, pat);
    let i = find(x, pat)->0;
    lemma_occurs_left(x, y, pat, i);
    assert forall|j: int| 0 <= j < i implies !#[trigger] occurs_at(x + y, pat, j) by {
        lemma_occurs_left(x, y, pat, j);
    }
    lemma_find_some(x + y, pat, i);
}

/// If nothing begins in the first part, the whole is searched as the second.
pub proof fn lemma_find_right(x: Seq<char>, y: Seq<char>, pat: Seq<char>)
    requires
        forall|i: int| 0 <= i < x.len() ==> !#[trigger] occurs_at(x + y, pat, i),
    ensures
        find(x + y, pat) == match find(y, pat) {
            Some(j) => Some(j + x.len()),
            None => None::<int>,
        },
{
    lemma_find(y, pat);
    match find(y, pat) {
        Some(j) => {
            lemma_occurs_right(x, y, pat, j + x.len());
            assert forall|i: int| 0 <= i < j + x.len() implies !#[trigger] occurs_at(
                x + y,
                pat,
                i,
            ) by {
                if i >= x.len() {
                    lemma_occurs_right(x, y, pat, i);
                }
            }
            lemma_find_some(x + y, pat, j + x.len());
        },
        None => {
            assert forall|i: int| !#[trigger] occurs_at(x + y, pat, i) by {
                if i >= x.len() {
                    lemma_occurs_right(x, y, pat, i);
                }
            }
            lemma_find(x + y, pat);
        },
    }
}

/// Searching for a single character.
pub proof fn lemma_find_char(s: Seq<char>, c: char)
    ensures
        find(s, seq![c]) is None <==> !s.contains(c),
        find(s, seq![c]) matches Some(i) ==> {
            &&& 0 <= i < s.len()
            &&& s[i] == c
            &&& forall|j: int| 0 <= j < i ==> s[j] != c
        },
{
    lemma_find(s, seq![c]);
    assert forall|i: int| 0 <= i < s.len() implies (#[trigger] s[i] == c <==> occurs_at(
        s,
        seq![c],
        i,
    )) by {
        lemma_occurs_chars(s, seq![c], i);
        assert(seq![c][0] == c);
    }
    if s.contains(c) {
        let i = choose|i: int| 0 <= i < s.len() && s[i] == c;
        assert(occurs_at(s, seq![c], i));
    }
    match find(s, seq![c]) {
        Some(i) => {
            assert(s[i] == c);
            assert forall|j: int| 0 <= j < i implies s[j] != c by {
                assert(!occurs_at(s, seq![c], j));
            }
        },
        None => {
            assert forall|i: int| 0 <= i < s.len() implies s[i] != c by {
                assert(!occurs_at(s, seq![c], i));
            }
        },
    }
}

/// The first occurrence of a single character, from where it stands.
pub proof fn lemma_find_char_at(s: Seq<char>, c: char, i: int)
    requires
        0 <= i < s.len(),
        s[i] == c,
        forall|j: int| 0 <= j < i ==> s[j] != c,
    ensures
        find(s, seq![c]) == Some(i),
{
    lemma_find_char(s, c);
    assert(s.contains(c));
}

/// Nothing is replaced where the pattern does not stand.
pub proof fn lemma_replaced_absent(s: Seq<char>, pat: Seq<char>, rep: Seq<char>)
    requires
        !has_text(s, pat),
    ensures
        replaced(s, pat, rep) == s,
{
    lemma_find(s, pat);
}

/// A pattern that stands nowhere in a text stands nowhere in its end either.
pub proof fn lemma_absent_in_skip(s: Seq<char>, pat: Seq<char>, n: int)
    requires
        !has_text(s, pat),
        0 <= n <= s.len(),
    ensures
        !has_text(s.skip(n), pat),
{
    assert(s.take(n) + s.skip(n) =~= s);
    assert forall|i: int| !#[trigger] occurs_at(s.skip(n), pat, i) by {
        if i >= 0 {
            lemma_occurs_right(s.take(n), s.skip(n), pat, i + n);
            assert(!occurs_at(s, pat, i + n));
        }
    }
}

/// Replacing one pattern does not bring in another one that stands nowhere, if
/// the replacement shares no character with it.
pub proof fn lemma_replaced_keeps_absent(
    s: Seq<char>,
    pat: Seq<char>,
    rep: Seq<char>,
    other: Seq<char>,
)
    requires
        !has_text(s, other),
        rep.len() > 0,
        forall|i: int| 0 <= i < rep.len() ==> !other.contains(#[trigger] rep[i]),
    ensures
        !has_text(replaced(s, pat, rep), other),
    decreases s.len(),
{
    lemma_find(s, pat);
    if pat.len() > 0 && find(s, pat) is Some {
        let i = find(s, pat)->0;
        let head = s.take(i);
        let rest = s.skip(i + pat.len());
        let tail = replaced(rest, pat, rep);
        lemma_absent_in_skip(s, other, i + pat.len());
        lemma_replaced_keeps_absent(rest, pat, rep, other);
        let whole = head + rep + tail;
        assert forall|k: int| !#[trigger] occurs_at(whole, other, k) by {
            if occurs_at(whole, other, k) {
                lemma_occurs_chars(whole, other, k);
                if other.len() == 0 {
                    assert(s.subrange(0, 0) =~= other);
                    assert(occurs_at(s, other, 0));
                } else if k + other.len() <= head.len() {
                    lemma_occurs_left(head, rep + tail, other, k);
                    assert(head + (rep + tail) =~= whole);
                    lemma_occurs_left(head, s.skip(i), other, k);
                    assert(head + s.skip(i) =~= s);
                    assert(occurs_at(s, other, k));
                } else if k >= head.len() + rep.len() {
                    lemma_occurs_right(head + rep, tail, other, k);
                    assert(occurs_at(tail, other, k - head.len() - rep.len()));
                } else {
                    let at = if k > head.len() { k } else { head.len() as int };
                    assert(other[at - k] == whole[k + (at - k)]);
                    assert(whole[at] == rep[at - head.len()]);
                    assert(other.contains(rep[at - head.len()]));
                }
            }
        }
    }
}

/// Nothing stands where its first character does not.
pub proof fn lemma_not_at(s: Seq<char>, pat: Seq<char>, i: int)
    requires
        pat.len() > 0,
        0 <= i < s.len(),
        s[i] != pat[0],
    ensures
        !occurs_at(s, pat, i),
{
    if occurs_at(s, pat, i) {
        assert(s.subrange(i, i + pat.len())[0] == s[i]);
    }
}

/// A pattern is found behind a text without its first character.
pub proof fn lemma_found_behind(x: Seq<char>, pat: Seq<char>, y: Seq<char>)
    requires
        pat.len() > 0,
        !x.contains(pat[0]),
    ensures
        find(x + pat + y, pat) == Some(x.len() as int),
{
    let s = x + pat + y;
    assert forall|i: int| 0 <= i < x.len() implies !#[trigger] occurs_at(s, pat, i) by {
        assert(s[i] == x[i]);
        assert(x.contains(x[i]));
        lemma_not_at(s, pat, i);
    }
    assert(s.subrange(x.len() as int, x.len() as int + pat.len()) =~= pat);
    lemma_find_some(s, pat, x.len() as int);
}

/// No line holds a line feed.
pub proof fn lemma_lines_whole(s: Seq<char>, i: int)
    requires
        0 <= i < lines(s).len(),
    ensures
        !lines(s)[i].contains('\n'),
    decreases s.len(),
{
    lemma_find_char(s, '\n');
    match find(s, seq!['\n']) {
        None => {},
        Some(at) => {
            if i == 0 {
                let first = without_return(s.take(at));
                if first.contains('\n') {
                    let k = choose|k: int| 0 <= k < first.len() && first[k] == '\n';
                    assert(s[k] == '\n');
                }
            } else {
                assert(lines(s)[i] == lines(s.skip(at + 1))[i - 1]);
                lemma_lines_whole(s.skip(at + 1), i - 1);
            }
        },
    }
}

/// A text with one more line at its end.
pub proof fn lemma_lines_push(head: Seq<char>, line: Seq<char>)
    requires
        head.len() > 0 ==> head.last() == '\n',
        !line.contains('\n'),
    ensures
        lines((head + line).push('\n')) == lines(head).push(without_return(line)),
    decreases head.len(),
{
    let whole = (head + line).push('\n');
    if head.len() == 0 {
        assert(whole =~= line.push('\n'));
        assert forall|j: int| 0 <= j < line.len() implies whole[j] != '\n' by {
            assert(line.contains(line[j]));
        }
        lemma_find_char_at(whole, '\n', line.len() as int);
        lemma_find_char(head, '\n');
        assert(whole.take(line.len() as int) =~= line);
        assert(whole.skip(line.len() as int + 1) =~= head);
        assert(lines(head) =~= seq![]);
        assert(lines(whole) =~= lines(head).push(without_return(line)));
    } else {
        lemma_find_char(head, '\n');
        assert(head.contains(head.last()));
        let at = find(head, seq!['\n'])->0;
        let rest = head.skip(at + 1);
        lemma_find_char_at(whole, '\n', at);
        assert(whole.take(at) =~= head.take(at));
        assert(whole.skip(at + 1) =~= (rest + line).push('\n'));
        lemma_lines_push(rest, line);
        assert(lines(whole) =~= lines(head).push(without_return(line)));
    }
}

} // verus!
