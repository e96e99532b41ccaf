//! What the operations on text give, told by the places in the text.

use vstd::prelude::*;

use crate::searching::{lemma_find_char, lemma_find_char_at, lemma_occurs_chars};
use crate::text::{
    begins_with, decimal, ends_in, first_at, has_text, joined, lemma_find, lemma_find_some,
    lines, lowered, occurs_at, parts, replaced, signed_decimal, trim_end, trim_start, trimmed,
    white_space, without_return, without_trailing,
};

verus! {

/// A text of nothing but white space.
pub open spec fn blank(s: Seq<char>) -> bool {
    forall|j: int| 0 <= j < s.len() ==> white_space(#[trigger] s[j])
}

/// What stands in `s` besides the white space around it begins at `from` and ends
/// before `to`.
pub open spec fn core_at(s: Seq<char>, from: int, to: int) -> bool {
    &&& 0 <= from < to <= s.len()
    &&& !white_space(s[from])
    &&& !white_space(s[to - 1])
    &&& forall|j: int| 0 <= j < from ==> white_space(#[trigger] s[j])
    &&& forall|j: int| to <= j < s.len() ==> white_space(#[trigger] s[j])
}

/// White space is what Unicode says it is: the tab and the control characters up to
/// the carriage return, the space, and the spaces and line breaks beyond ASCII.
pub proof fn law_white_space(c: char)
    ensures
        (c as int) < 128 ==> (white_space(c) <==> 9 <= c as int <= 13 || c == ' '),
        (c as int) >= 128 ==> (white_space(c) <==> c as int == 133 || c as int == 160 || c as int
            == 5760 || 8192 <= c as int <= 8202 || c as int == 8232 || c as int == 8233 || c as int
            == 8239 || c as int == 8287 || c as int == 12288),
{
}

proof fn lemma_trim_end_at(s: Seq<char>, to: int)
    requires
        0 <= to <= s.len(),
        to > 0 ==> !white_space(s[to - 1]),
        forall|j: int| to <= j < s.len() ==> white_space(#[trigger] s[j]),
    ensures
        trim_end(s) == s.take(to),
    decreases s.len(),
{
    if to < s.len() {
        assert(white_space(s[s.len() - 1]));
        lemma_trim_end_at(s.drop_last(), to);
        assert(s.drop_last().take(to) =~= s.take(to));
    } else {
        assert(s.take(to) =~= s);
    }
}

proof fn lemma_trim_start_at(s: Seq<char>, from: int)
    requires
        0 <= from <= s.len(),
        from < s.len() ==> !white_space(s[from]),
        forall|j: int| 0 <= j < from ==> white_space(#[trigger] s[j]),
    ensures
        trim_start(s) == s.skip(from),
    decreases from,
{
    if from > 0 {
        assert(white_space(s[0]));
        let rest = s.drop_first();
        assert forall|j: int| 0 <= j < from - 1 implies white_space(#[trigger] rest[j]) by {
            assert(rest[j] == s[j + 1]);
        }
        lemma_trim_start_at(rest, from - 1);
        assert(rest.skip(from - 1) =~= s.skip(from));
    } else {
        assert(s.skip(from) =~= s);
    }
}

/// A text that is not blank has a first and a last character that is not white
/// space.
pub proof fn lemma_core(s: Seq<char>) -> (r: (int, int))
    requires
        !blank(s),
    ensures
        core_at(s, r.0, r.1),
    decreases s.len(),
{
    if white_space(s[0]) {
        let rest = s.drop_first();
        assert(!blank(rest)) by {
            let j = choose|j: int| 0 <= j < s.len() && !white_space(#[trigger] s[j]);
            assert(rest[j - 1] == s[j]);
        }
        let (from, to) = lemma_core(rest);
        assert(core_at(s, from + 1, to + 1)) by {
            assert(rest[from] == s[from + 1]);
            assert(rest[to - 1] == s[to]);
            assert forall|j: int| 0 <= j < from + 1 implies white_space(#[trigger] s[j]) by {
                if j > 0 {
                    assert(rest[j - 1] == s[j]);
                }
            }
            assert forall|j: int| to + 1 <= j < s.len() implies white_space(#[trigger] s[j]) by {
                assert(rest[j - 1] == s[j]);
            }
        }
        (from + 1, to + 1)
    } else if white_space(s.last()) {
        let rest = s.drop_last();
        assert(rest[0] == s[0]);
        assert(!blank(rest));
        let (from, to) = lemma_core(rest);
        assert(core_at(s, from, to)) by {
            assert(rest[from] == s[from]);
            assert(rest[to - 1] == s[to - 1]);
            assert forall|j: int| 0 <= j < from implies white_space(#[trigger] s[j]) by {
                assert(rest[j] == s[j]);
            }
            assert forall|j: int| to <= j < s.len() implies white_space(#[trigger] s[j]) by {
                if j < rest.len() {
                    assert(rest[j] == s[j]);
                }
            }
        }
        (from, to)
    } else {
        (0, s.len() as int)
    }
}

/// Trimming takes away the white space at both ends and nothing else.
pub proof fn law_trimmed(s: Seq<char>)
    ensures
        trimmed(s).len() == 0 <==> blank(s),
        forall|from: int, to: int| #[trigger]
            core_at(s, from, to) ==> trimmed(s) == s.subrange(from, to),
        !blank(s) ==> exists|from: int, to: int| #[trigger] core_at(s, from, to),
{
    if blank(s) {
        lemma_trim_start_at(s, s.len() as int);
    } else {
        let (from, to) = lemma_core(s);
        assert(core_at(s, from, to));
    }
    assert forall|from: int, to: int| #[trigger] core_at(s, from, to) implies trimmed(s)
        == s.subrange(from, to) by {
        lemma_trim_start_at(s, from);
        let rest = s.skip(from);
        assert(rest[to - 1 - from] == s[to - 1]);
        assert forall|j: int| to - from <= j < rest.len() implies white_space(
            #[trigger] rest[j],
        ) by {
            assert(rest[j] == s[j + from]);
        }
        lemma_trim_end_at(rest, to - from);
        assert(rest.take(to - from) =~= s.subrange(from, to));
    }
}

/// The first character of a trimmed text is the first that is not white space.
pub proof fn law_trimmed_first(s: Seq<char>, from: int, to: int)
    requires
        core_at(s, from, to),
    ensures
        trimmed(s).len() == to - from,
        trimmed(s)[0] == s[from],
{
    law_trimmed(s);
}

/// A text is the line up to its first line feed, without one carriage return
/// before it, and the lines behind. Without a line feed it is one line, and none
/// if it is empty.
pub proof fn law_lines_split(a: Seq<char>, b: Seq<char>)
    requires
        !a.contains('\n'),
    ensures
        lines(a + seq!['\n'] + b) == seq![without_return(a)] + lines(b),
        lines(a + seq!['\r', '\n'] + b) == seq![a] + lines(b),
        a.len() > 0 ==> lines(a) == seq![a],
        a.len() == 0 ==> lines(a) == Seq::<Seq<char>>::empty(),
        a.len() > 0 && a.last() == '\r' ==> without_return(a) == a.drop_last(),
        !(a.len() > 0 && a.last() == '\r') ==> without_return(a) == a,
{
    lemma_find_char(a, '\n');
    lemma_line_first(a, b);
    let c = a.push('\r');
    assert(!c.contains('\n')) by {
        assert forall|j: int| 0 <= j < c.len() implies c[j] != '\n' by {
            if j < a.len() {
                assert(a.contains(a[j]));
            }
        }
    }
    lemma_line_first(c, b);
    assert(c.drop_last() =~= a);
    assert(c + seq!['\n'] + b =~= a + seq!['\r', '\n'] + b);
}

proof fn lemma_line_first(a: Seq<char>, b: Seq<char>)
    requires
        !a.contains('\n'),
    ensures
        lines(a + seq!['\n'] + b) == seq![without_return(a)] + lines(b),
{
    let s = a + seq!['\n'] + b;
    let n = a.len() as int;
    assert forall|j: int| 0 <= j < n implies s[j] != '\n' by {
        assert(a.contains(a[j]));
    }
    assert(s[n] == '\n');
    lemma_find_char_at(s, '\n', n);
    assert(s.take(n) =~= a);
    assert(s.skip(n + 1) =~= b);
}

/// The parts of a text are what stands before its first separator, unless that is
/// nothing, and the parts of what stands behind.
pub proof fn law_parts_split(a: Seq<char>, b: Seq<char>, sep: char)
    requires
        !a.contains(sep),
    ensures
        a.len() > 0 ==> parts(a + seq![sep] + b, sep) == seq![a] + parts(b, sep),
        a.len() == 0 ==> parts(a + seq![sep] + b, sep) == parts(b, sep),
        a.len() > 0 ==> parts(a, sep) == seq![a],
        a.len() == 0 ==> parts(a, sep) == Seq::<Seq<char>>::empty(),
{
    lemma_find_char(a, sep);
    let s = a + seq![sep] + b;
    let n = a.len() as int;
    assert forall|j: int| 0 <= j < n implies s[j] != sep by {
        assert(a.contains(a[j]));
    }
    assert(s[n] == sep);
    lemma_find_char_at(s, sep, n);
    assert(s.take(n) =~= a);
    assert(s.skip(n + 1) =~= b);
    assert(Seq::<Seq<char>>::empty() + parts(b, sep) =~= parts(b, sep));
}

/// Replacing puts the new text in place of the leftmost occurrence and goes on
/// behind it; a text in which the pattern does not stand stays.
pub proof fn law_replaced(x: Seq<char>, pat: Seq<char>, y: Seq<char>, rep: Seq<char>)
    requires
        pat.len() > 0,
    ensures
        first_at(x + pat + y, pat, x.len() as int) ==> replaced(x + pat + y, pat, rep) == x + rep
            + replaced(y, pat, rep),
        !has_text(x, pat) ==> replaced(x, pat, rep) == x,
{
    let s = x + pat + y;
    if first_at(s, pat, x.len() as int) {
        lemma_find_some(s, pat, x.len() as int);
        assert(s.take(x.len() as int) =~= x);
        assert(s.skip((x.len() + pat.len()) as int) =~= y);
    }
    lemma_find(x, pat);
}

/// A text begins with another that stands at its start, and ends in another that
/// stands at its end.
pub proof fn law_stands_in(s: Seq<char>, t: Seq<char>)
    ensures
        begins_with(s, t) <==> occurs_at(s, t, 0),
        ends_in(s, t) <==> occurs_at(s, t, s.len() - t.len()),
{
    if t.len() <= s.len() {
        assert(s.subrange(0, t.len() as int) =~= s.take(t.len() as int));
        assert(s.subrange(s.len() - t.len(), s.len() as int) =~= s.skip(s.len() - t.len()));
    }
}

/// A text stands in another where all its characters do.
pub proof fn law_occurs(s: Seq<char>, t: Seq<char>, i: int)
    ensures
        occurs_at(s, t, i) <==> 0 <= i && i + t.len() <= s.len() && (forall|k: int|
            0 <= k < t.len() ==> #[trigger] t[k] == s[i + k]),
        occurs_at(s, t, i) ==> has_text(s, t) && s == s.take(i) + t + s.skip(i + t.len()),
{
    lemma_occurs_chars(s, t, i);
    if occurs_at(s, t, i) {
        assert(s =~= s.take(i) + t + s.skip(i + t.len()));
    }
}

/// A text that is held by another stands somewhere in it.
pub proof fn law_has_text(a: Seq<char>, t: Seq<char>, b: Seq<char>)
    ensures
        has_text(a + t + b, t),
        has_text(a, t) ==> exists|i: int| #[trigger] occurs_at(a, t, i),
{
    let s = a + t + b;
    assert(s.subrange(a.len() as int, (a.len() + t.len()) as int) =~= t);
    assert(occurs_at(s, t, a.len() as int));
}

/// The number that a row of decimal digits stands for.
pub open spec fn number(digits: Seq<char>) -> int
    decreases digits.len(),
{
    if digits.len() == 0 {
        0
    } else {
        10 * number(digits.drop_last()) + (digits.last() as int - 48)
    }
}

/// The decimal notation of a number is the row of digits that stands for it,
/// without a zero in front.
pub proof fn law_decimal(n: nat)
    ensures
        number(decimal(n)) == n,
        decimal(n).len() > 0,
        forall|k: int| 0 <= k < decimal(n).len() ==> '0' <= #[trigger] decimal(n)[k] <= '9',
        decimal(n).len() > 1 ==> decimal(n)[0] != '0',
        n >= 10 ==> decimal(n).len() > 1,
    decreases n,
{
    if n < 10 {
        assert(decimal(n).drop_last() =~= seq![]);
        assert(number(decimal(n).drop_last()) == 0);
        assert(decimal(n).last() as int == n + 48);
    } else {
        law_decimal(n / 10);
        let front = decimal(n / 10);
        assert(decimal(n).drop_last() =~= front);
        assert(decimal(n).last() as int == n % 10 + 48);
        assert forall|k: int| 0 <= k < decimal(n).len() implies '0' <= #[trigger] decimal(n)[k]
            <= '9' by {
            if k < front.len() {
                assert(decimal(n)[k] == front[k]);
            }
        }
        assert(decimal(n)[0] == front[0]);
        if n / 10 < 10 {
            assert(front.len() == 1);
            assert(front[0] != '0');
        }
    }
}

/// The notation of an integer is that of its amount, behind a minus sign if it is
/// negative.
pub proof fn law_signed_decimal(n: int)
    ensures
        n >= 0 ==> signed_decimal(n) == decimal(n as nat),
        n < 0 ==> signed_decimal(n) == seq!['-'] + decimal((0 - n) as nat),
{
}

/// Lower case changes the letters from `A` to `Z` and nothing else.
pub proof fn law_lowered(s: Seq<char>)
    ensures
        lowered(s).len() == s.len(),
        forall|k: int|
            0 <= k < s.len() ==> #[trigger] lowered(s)[k] as int == if 65 <= s[k] as int <= 90 {
                s[k] as int + 32
            } else {
                s[k] as int
            },
{
}

/// Only the given character is taken from the end, and every one there.
pub proof fn law_without_trailing(s: Seq<char>, c: char)
    ensures
        without_trailing(s, c).len() <= s.len(),
        s.take(without_trailing(s, c).len() as int) == without_trailing(s, c),
        forall|k: int| without_trailing(s, c).len() <= k < s.len() ==> #[trigger] s[k] == c,
        without_trailing(s, c).len() > 0 ==> without_trailing(s, c).last() != c,
    decreases s.len(),
{
    if s.len() > 0 && s.last() == c {
        law_without_trailing(s.drop_last(), c);
        let n = without_trailing(s, c).len() as int;
        assert(s.drop_last().take(n) =~= s.take(n));
        assert forall|k: int| n <= k < s.len() implies #[trigger] s[k] == c by {
            if k < s.len() - 1 {
                assert(s.drop_last()[k] == s[k]);
            }
        }
    } else {
        assert(s.take(s.len() as int) =~= s);
    }
}

/// Joined texts stand in their order with the separator between any two of them.
pub proof fn law_joined(list: Seq<Seq<char>>, last: Seq<char>, sep: Seq<char>)
    ensures
        joined(seq![], sep) == Seq::<char>::empty(),
        joined(seq![last], sep) == last,
        list.len() > 0 ==> joined(list.push(last), sep) == joined(list, sep) + sep + last,
{
    assert(list.push(last).drop_last() =~= list);
}

} // verus!
