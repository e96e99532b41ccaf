//! What every placeholder of a replay template is filled with.

use vstd::prelude::*;

use crate::failure::{AppError, Status};
use crate::replay::{
    expands, filled, placeholder, settles, stamp_like, stamp_pattern, stamps_of, unfilled,
    utc_stamp, written, StampsView,
};
use crate::searching::{lemma_find_right, lemma_not_at, lemma_occurs_chars};
use crate::text::{
    begins_with, find, first_at, has_text, lemma_find, lemma_find_some, occurs_at, replaced,
    signed_decimal,
};
use crate::text_laws::{law_decimal, law_signed_decimal, law_stands_in};
use crate::weburl::web_address;
use crate::zone::local_time;

verus! {

/// The placeholders, in the order in which they are filled.
spec fn mark(k: int) -> Seq<char> {
    if k == 0 {
        "${(b)timestamp}"@
    } else if k == 1 {
        "${(b)yyyyMMddHHmmss:utc}"@
    } else if k == 2 {
        "${(b)yyyyMMddHHmmss}"@
    } else if k == 3 {
        "${(e)timestamp}"@
    } else if k == 4 {
        "${(e)yyyyMMddHHmmss:utc}"@
    } else if k == 5 {
        "${(e)yyyyMMddHHmmss}"@
    } else if k == 6 {
        "{utc:YmdHMS}"@
    } else {
        "{utcend:YmdHMS}"@
    }
}

/// What the placeholders are filled with.
spec fn told(k: int, start: int, end: int, stamps: StampsView) -> Seq<char> {
    if k == 0 {
        signed_decimal(start)
    } else if k == 1 || k == 6 {
        stamps.start_utc
    } else if k == 2 {
        stamps.start_local
    } else if k == 3 {
        signed_decimal(end)
    } else if k == 4 || k == 7 {
        stamps.end_utc
    } else {
        stamps.end_local
    }
}

/// A template with the first `n` placeholders filled.
#[verifier::opaque]
spec fn through(n: int, text: Seq<char>, start: int, end: int, stamps: StampsView) -> Seq<char>
    decreases n,
{
    if n <= 0 {
        text
    } else {
        replaced(
            through(n - 1, text, start, end, stamps),
            mark(n - 1),
            told(n - 1, start, end, stamps),
        )
    }
}

proof fn lemma_through_next(n: int, text: Seq<char>, start: int, end: int, stamps: StampsView)
    ensures
        n <= 0 ==> through(n, text, start, end, stamps) == text,
        n > 0 ==> through(n, text, start, end, stamps) == replaced(
            through(n - 1, text, start, end, stamps),
            mark(n - 1),
            told(n - 1, start, end, stamps),
        ),
{
    reveal(through);
}

proof fn lemma_placeholders()
    ensures
        placeholder("(b)"@, "timestamp"@) == "${(b)timestamp}"@,
        placeholder("(b)"@, "yyyyMMddHHmmss:utc"@) == "${(b)yyyyMMddHHmmss:utc}"@,
        placeholder("(b)"@, "yyyyMMddHHmmss"@) == "${(b)yyyyMMddHHmmss}"@,
        placeholder("(e)"@, "timestamp"@) == "${(e)timestamp}"@,
        placeholder("(e)"@, "yyyyMMddHHmmss:utc"@) == "${(e)yyyyMMddHHmmss:utc}"@,
        placeholder("(e)"@, "yyyyMMddHHmmss"@) == "${(e)yyyyMMddHHmmss}"@,
{
    reveal_strlit("${");
    reveal_strlit("}");
    reveal_strlit("(b)");
    reveal_strlit("(e)");
    reveal_strlit("timestamp");
    reveal_strlit("yyyyMMddHHmmss:utc");
    reveal_strlit("yyyyMMddHHmmss");
    reveal_strlit("${(b)timestamp}");
    reveal_strlit("${(b)yyyyMMddHHmmss:utc}");
    reveal_strlit("${(b)yyyyMMddHHmmss}");
    reveal_strlit("${(e)timestamp}");
    reveal_strlit("${(e)yyyyMMddHHmmss:utc}");
    reveal_strlit("${(e)yyyyMMddHHmmss}");
    assert(placeholder("(b)"@, "timestamp"@) =~= "${(b)timestamp}"@);
    assert(placeholder("(b)"@, "yyyyMMddHHmmss:utc"@) =~= "${(b)yyyyMMddHHmmss:utc}"@);
    assert(placeholder("(b)"@, "yyyyMMddHHmmss"@) =~= "${(b)yyyyMMddHHmmss}"@);
    assert(placeholder("(e)"@, "timestamp"@) =~= "${(e)timestamp}"@);
    assert(placeholder("(e)"@, "yyyyMMddHHmmss:utc"@) =~= "${(e)yyyyMMddHHmmss:utc}"@);
    assert(placeholder("(e)"@, "yyyyMMddHHmmss"@) =~= "${(e)yyyyMMddHHmmss}"@);
}

/// Filling is filling all placeholders in their order.
proof fn lemma_filled_through(text: Seq<char>, start: int, end: int, stamps: StampsView)
    ensures
        filled(text, start, end, stamps) == through(8, text, start, end, stamps),
{
    lemma_placeholders();
    lemma_through_next(0, text, start, end, stamps);
    lemma_through_next(1, text, start, end, stamps);
    lemma_through_next(2, text, start, end, stamps);
    lemma_through_next(3, text, start, end, stamps);
    lemma_through_next(4, text, start, end, stamps);
    lemma_through_next(5, text, start, end, stamps);
    lemma_through_next(6, text, start, end, stamps);
    lemma_through_next(7, text, start, end, stamps);
    lemma_through_next(8, text, start, end, stamps);
}

/// The characters of the placeholders.
proof fn lemma_mark(k: int)
    requires
        0 <= k < 8,
    ensures
        mark(k).len() >= 12,
        k < 6 ==> mark(k)[0] == '$' && mark(k)[1] == '{' && mark(k)[2] == '(',
        k >= 6 ==> mark(k)[0] == '{' && mark(k)[1] == 'u',
        forall|i: int| 1 <= i < mark(k).len() ==> #[trigger] mark(k)[i] != '$',
        forall|i: int|
            1 <= i < mark(k).len() && !(k < 6 && i == 1) ==> #[trigger] mark(k)[i] != '{',
{
    reveal_strlit("${(b)timestamp}");
    reveal_strlit("${(b)yyyyMMddHHmmss:utc}");
    reveal_strlit("${(b)yyyyMMddHHmmss}");
    reveal_strlit("${(e)timestamp}");
    reveal_strlit("${(e)yyyyMMddHHmmss:utc}");
    reveal_strlit("${(e)yyyyMMddHHmmss}");
    reveal_strlit("{utc:YmdHMS}");
    reveal_strlit("{utcend:YmdHMS}");
}

/// Two placeholders differ at a place that both have.
proof fn lemma_marks_differ(j: int, k: int) -> (d: int)
    requires
        0 <= j < 8,
        0 <= k < 8,
        j != k,
    ensures
        0 <= d < mark(j).len(),
        d < mark(k).len(),
        mark(j)[d] != mark(k)[d],
{
    reveal_strlit("${(b)timestamp}");
    reveal_strlit("${(b)yyyyMMddHHmmss:utc}");
    reveal_strlit("${(b)yyyyMMddHHmmss}");
    reveal_strlit("${(e)timestamp}");
    reveal_strlit("${(e)yyyyMMddHHmmss:utc}");
    reveal_strlit("${(e)yyyyMMddHHmmss}");
    reveal_strlit("{utc:YmdHMS}");
    reveal_strlit("{utcend:YmdHMS}");
    if (j < 6) != (k < 6) {
        0
    } else if j >= 6 {
        4
    } else if (j < 3) != (k < 3) {
        3
    } else if j == 0 || j == 3 || k == 0 || k == 3 {
        5
    } else {
        19
    }
}

/// A placeholder is not found where another one begins, nor inside it.
proof fn lemma_marks_apart(j: int, k: int, t: Seq<char>)
    requires
        0 <= j < 8,
        0 <= k < 8,
        j != k,
    ensures
        forall|i: int| 0 <= i < mark(k).len() ==> !#[trigger] occurs_at(mark(k) + t, mark(j), i),
{
    let s = mark(k) + t;
    let pat = mark(j);
    lemma_mark(j);
    lemma_mark(k);
    let d = lemma_marks_differ(j, k);
    assert forall|i: int| 0 <= i < mark(k).len() implies !#[trigger] occurs_at(s, pat, i) by {
        if occurs_at(s, pat, i) {
            lemma_occurs_chars(s, pat, i);
            assert(s[i] == mark(k)[i]);
            assert(pat[0] == s[i + 0]);
            if i == 0 {
                assert(pat[d] == s[i + d]);
                assert(s[d] == mark(k)[d]);
            } else {
                assert(k < 6 && i == 1 && j >= 6);
                assert(pat[1] == s[i + 1]);
                assert(s[2] == mark(k)[2]);
            }
        }
    }
}

/// What stands before every occurrence stays when a pattern is replaced.
proof fn lemma_replaced_behind(x: Seq<char>, t: Seq<char>, pat: Seq<char>, rep: Seq<char>)
    requires
        pat.len() > 0,
        forall|i: int| 0 <= i < x.len() ==> !#[trigger] occurs_at(x + t, pat, i),
    ensures
        replaced(x + t, pat, rep) == x + replaced(t, pat, rep),
{
    lemma_find_right(x, t, pat);
    lemma_find(t, pat);
    match find(t, pat) {
        Some(j) => {
            let n = x.len() as int;
            assert((x + t).take(j + n) =~= x + t.take(j));
            assert((x + t).skip(j + n + pat.len()) =~= t.skip(j + pat.len()));
            let rest = replaced(t.skip(j + pat.len()), pat, rep);
            assert(x + t.take(j) + rep + rest =~= x + (t.take(j) + rep + rest));
        },
        None => {},
    }
}

/// A text without the first character of a pattern stays.
proof fn lemma_replaced_behind_clean(x: Seq<char>, t: Seq<char>, pat: Seq<char>, rep: Seq<char>)
    requires
        pat.len() > 0,
        !x.contains(pat[0]),
    ensures
        replaced(x + t, pat, rep) == x + replaced(t, pat, rep),
{
    assert forall|i: int| 0 <= i < x.len() implies !#[trigger] occurs_at(x + t, pat, i) by {
        assert((x + t)[i] == x[i]);
        assert(x.contains(x[i]));
        lemma_not_at(x + t, pat, i);
    }
    lemma_replaced_behind(x, t, pat, rep);
}

proof fn lemma_replaced_first(t: Seq<char>, pat: Seq<char>, rep: Seq<char>)
    requires
        pat.len() > 0,
    ensures
        replaced(pat + t, pat, rep) == rep + replaced(t, pat, rep),
{
    let s = pat + t;
    assert(s.subrange(0, pat.len() as int) =~= pat);
    assert(first_at(s, pat, 0));
    lemma_find_some(s, pat, 0);
    assert(s.take(0) =~= seq![]);
    assert(s.skip(pat.len() as int) =~= t);
    assert(Seq::<char>::empty() + rep + replaced(t, pat, rep) =~= rep + replaced(t, pat, rep));
}

/// A text in which no placeholder begins.
pub open spec fn clean(x: Seq<char>) -> bool {
    !x.contains('$') && !x.contains('{')
}

proof fn lemma_stamp_clean(s: Seq<char>)
    requires
        stamp_like(s),
    ensures
        clean(s),
{
    assert forall|i: int| 0 <= i < s.len() implies s[i] != '$' && s[i] != '{' by {}
}

proof fn lemma_told_clean(k: int, start: int, end: int, stamps: StampsView)
    requires
        written(stamps),
    ensures
        clean(told(k, start, end, stamps)),
{
    lemma_seconds_clean(start);
    lemma_seconds_clean(end);
    lemma_stamp_clean(stamps.start_utc);
    lemma_stamp_clean(stamps.start_local);
    lemma_stamp_clean(stamps.end_utc);
    lemma_stamp_clean(stamps.end_local);
}

proof fn lemma_seconds_clean(n: int)
    ensures
        clean(signed_decimal(n)),
{
    law_signed_decimal(n);
    if n < 0 {
        law_decimal((0 - n) as nat);
    } else {
        law_decimal(n as nat);
    }
}

proof fn lemma_through_clean(
    n: int,
    x: Seq<char>,
    t: Seq<char>,
    start: int,
    end: int,
    stamps: StampsView,
)
    requires
        0 <= n <= 8,
        clean(x),
    ensures
        through(n, x + t, start, end, stamps) == x + through(n, t, start, end, stamps),
    decreases n,
{
    lemma_through_next(n, x + t, start, end, stamps);
    lemma_through_next(n, t, start, end, stamps);
    if n > 0 {
        lemma_through_clean(n - 1, x, t, start, end, stamps);
        lemma_mark(n - 1);
        lemma_replaced_behind_clean(
            x,
            through(n - 1, t, start, end, stamps),
            mark(n - 1),
            told(n - 1, start, end, stamps),
        );
    }
}

proof fn lemma_through_mark(
    n: int,
    k: int,
    t: Seq<char>,
    start: int,
    end: int,
    stamps: StampsView,
)
    requires
        0 <= n <= 8,
        0 <= k < 8,
        written(stamps),
    ensures
        n <= k ==> through(n, mark(k) + t, start, end, stamps) == mark(k) + through(
            n,
            t,
            start,
            end,
            stamps,
        ),
        n > k ==> through(n, mark(k) + t, start, end, stamps) == told(k, start, end, stamps)
            + through(n, t, start, end, stamps),
    decreases n,
{
    lemma_through_next(n, mark(k) + t, start, end, stamps);
    lemma_through_next(n, t, start, end, stamps);
    if n > 0 {
        lemma_through_mark(n - 1, k, t, start, end, stamps);
        lemma_mark(n - 1);
        let rest = through(n - 1, t, start, end, stamps);
        let pat = mark(n - 1);
        let rep = told(n - 1, start, end, stamps);
        if n - 1 < k {
            lemma_marks_apart(n - 1, k, rest);
            lemma_replaced_behind(mark(k), rest, pat, rep);
        } else if n - 1 == k {
            lemma_replaced_first(rest, pat, rep);
        } else {
            lemma_told_clean(k, start, end, stamps);
            lemma_replaced_behind_clean(told(k, start, end, stamps), rest, pat, rep);
        }
    }
}

proof fn lemma_filled_mark(k: int, t: Seq<char>, start: int, end: int, stamps: StampsView)
    requires
        0 <= k < 8,
        written(stamps),
    ensures
        filled(mark(k) + t, start, end, stamps) == told(k, start, end, stamps) + filled(
            t,
            start,
            end,
            stamps,
        ),
{
    lemma_filled_through(mark(k) + t, start, end, stamps);
    lemma_filled_through(t, start, end, stamps);
    lemma_through_mark(8, k, t, start, end, stamps);
}

/// Text in which no placeholder begins is kept, and the rest is filled as it would
/// be alone.
pub proof fn law_text_kept(
    x: Seq<char>,
    t: Seq<char>,
    start: int,
    end: int,
    stamps: StampsView,
)
    requires
        clean(x),
    ensures
        filled(x + t, start, end, stamps) == x + filled(t, start, end, stamps),
        filled(x, start, end, stamps) == x,
{
    lemma_filled_through(x + t, start, end, stamps);
    lemma_filled_through(t, start, end, stamps);
    lemma_through_clean(8, x, t, start, end, stamps);
    let nothing = Seq::<char>::empty();
    lemma_filled_through(x, start, end, stamps);
    lemma_through_clean(8, x, nothing, start, end, stamps);
    assert(x + nothing =~= x);
    lemma_through_nothing(8, start, end, stamps);
}

proof fn lemma_through_nothing(n: int, start: int, end: int, stamps: StampsView)
    requires
        0 <= n <= 8,
    ensures
        through(n, seq![], start, end, stamps) == Seq::<char>::empty(),
    decreases n,
{
    lemma_through_next(n, seq![], start, end, stamps);
    if n > 0 {
        lemma_through_nothing(n - 1, start, end, stamps);
        lemma_mark(n - 1);
        lemma_find(Seq::<char>::empty(), mark(n - 1));
    }
}

/// The placeholders for seconds are filled with the seconds of the start and of the
/// end, wherever they stand, and the rest is filled as it would be alone.
pub proof fn law_seconds_filled(t: Seq<char>, start: int, end: int, stamps: StampsView)
    requires
        written(stamps),
    ensures
        filled("${(b)timestamp}"@ + t, start, end, stamps) == signed_decimal(start)
            + filled(t, start, end, stamps),
        filled("${(e)timestamp}"@ + t, start, end, stamps) == signed_decimal(end)
            + filled(t, start, end, stamps),
{
    lemma_filled_mark(0, t, start, end, stamps);
    lemma_filled_mark(3, t, start, end, stamps);
}

/// The placeholders for UTC are filled with the start and the end as written in
/// UTC, wherever they stand.
pub proof fn law_utc_filled(t: Seq<char>, start: int, end: int, stamps: StampsView)
    requires
        written(stamps),
    ensures
        filled("${(b)yyyyMMddHHmmss:utc}"@ + t, start, end, stamps) == stamps.start_utc
            + filled(t, start, end, stamps),
        filled("${(e)yyyyMMddHHmmss:utc}"@ + t, start, end, stamps) == stamps.end_utc
            + filled(t, start, end, stamps),
{
    lemma_filled_mark(1, t, start, end, stamps);
    lemma_filled_mark(4, t, start, end, stamps);
}

/// The placeholders for local time are filled with the start and the end as written
/// in local time, wherever they stand.
pub proof fn law_local_filled(t: Seq<char>, start: int, end: int, stamps: StampsView)
    requires
        written(stamps),
    ensures
        filled("${(b)yyyyMMddHHmmss}"@ + t, start, end, stamps) == stamps.start_local
            + filled(t, start, end, stamps),
        filled("${(e)yyyyMMddHHmmss}"@ + t, start, end, stamps) == stamps.end_local
            + filled(t, start, end, stamps),
{
    lemma_filled_mark(2, t, start, end, stamps);
    lemma_filled_mark(5, t, start, end, stamps);
}

/// The short placeholders are filled with the start and the end as written in UTC,
/// wherever they stand.
pub proof fn law_short_utc_filled(t: Seq<char>, start: int, end: int, stamps: StampsView)
    requires
        written(stamps),
    ensures
        filled("{utc:YmdHMS}"@ + t, start, end, stamps) == stamps.start_utc
            + filled(t, start, end, stamps),
        filled("{utcend:YmdHMS}"@ + t, start, end, stamps) == stamps.end_utc
            + filled(t, start, end, stamps),
{
    lemma_filled_mark(6, t, start, end, stamps);
    lemma_filled_mark(7, t, start, end, stamps);
}

/// Filling is one replacement after the other, in this order, whatever the times
/// are written as.
pub proof fn law_filled_in_order(
    template: Seq<char>,
    start: int,
    end: int,
    stamps: StampsView,
)
    ensures
        ({
            let a = replaced(template, "${(b)timestamp}"@, signed_decimal(start));
            let b = replaced(a, "${(b)yyyyMMddHHmmss:utc}"@, stamps.start_utc);
            let c = replaced(b, "${(b)yyyyMMddHHmmss}"@, stamps.start_local);
            let d = replaced(c, "${(e)timestamp}"@, signed_decimal(end));
            let e = replaced(d, "${(e)yyyyMMddHHmmss:utc}"@, stamps.end_utc);
            let f = replaced(e, "${(e)yyyyMMddHHmmss}"@, stamps.end_local);
            let g = replaced(f, "{utc:YmdHMS}"@, stamps.start_utc);
            filled(template, start, end, stamps) == replaced(
                g,
                "{utcend:YmdHMS}"@,
                stamps.end_utc,
            )
        }),
{
    lemma_placeholders();
}

/// What stands at the front of a text after a replacement stood there before, if
/// the new text is none of its characters.
proof fn lemma_front_before(c: char, t: Seq<char>, pat: Seq<char>, rep: Seq<char>, m: Seq<char>)
    requires
        pat.len() > 0,
        rep.len() > 0,
        !m.contains(rep[0]),
        occurs_at(seq![c] + replaced(t, pat, rep), m, 0),
    ensures
        occurs_at(seq![c] + t, m, 0),
{
    lemma_find(t, pat);
    match find(t, pat) {
        Some(i) => {
            let after = seq![c] + replaced(t, pat, rep);
            let kept = seq![c] + t.take(i);
            assert(after[i + 1] == rep[0]);
            lemma_occurs_chars(after, m, 0);
            if m.len() > i + 1 {
                assert(m[i + 1] == after[0 + (i + 1)]);
                assert(m.contains(m[i + 1]));
            }
            assert(after.subrange(0, m.len() as int) =~= (seq![c] + t).subrange(
                0,
                m.len() as int,
            )) by {
                assert forall|k: int| 0 <= k < m.len() implies after[k] == (seq![c] + t)[k] by {
                    assert(after[k] == kept[k]);
                }
            }
        },
        None => {},
    }
}

/// No digit and no sign stands in a placeholder.
proof fn lemma_mark_letters(k: int, c: char)
    requires
        0 <= k < 8,
        '0' <= c <= '9' || c == '+' || c == '-',
    ensures
        !mark(k).contains(c),
{
    reveal_strlit("${(b)timestamp}");
    reveal_strlit("${(b)yyyyMMddHHmmss:utc}");
    reveal_strlit("${(b)yyyyMMddHHmmss}");
    reveal_strlit("${(e)timestamp}");
    reveal_strlit("${(e)yyyyMMddHHmmss:utc}");
    reveal_strlit("${(e)yyyyMMddHHmmss}");
    reveal_strlit("{utc:YmdHMS}");
    reveal_strlit("{utcend:YmdHMS}");
    assert forall|i: int| 0 <= i < mark(k).len() implies mark(k)[i] != c by {}
}

proof fn lemma_told_written(k: int, start: int, end: int, stamps: StampsView)
    requires
        written(stamps),
    ensures
        stamp_like(told(k, start, end, stamps)),
{
    lemma_seconds_written(start);
    lemma_seconds_written(end);
}

proof fn lemma_seconds_written(n: int)
    ensures
        stamp_like(signed_decimal(n)),
{
    law_signed_decimal(n);
    if n < 0 {
        law_decimal((0 - n) as nat);
    } else {
        law_decimal(n as nat);
    }
}

proof fn lemma_through_character(
    n: int,
    c: char,
    t: Seq<char>,
    start: int,
    end: int,
    stamps: StampsView,
)
    requires
        0 <= n <= 8,
        written(stamps),
        forall|k: int| 0 <= k < 8 ==> !occurs_at(seq![c] + t, #[trigger] mark(k), 0),
    ensures
        through(n, seq![c] + t, start, end, stamps) == seq![c] + through(
            n,
            t,
            start,
            end,
            stamps,
        ),
        forall|k: int|
            0 <= k < 8 ==> !occurs_at(
                seq![c] + through(n, t, start, end, stamps),
                #[trigger] mark(k),
                0,
            ),
    decreases n,
{
    lemma_through_next(n, seq![c] + t, start, end, stamps);
    lemma_through_next(n, t, start, end, stamps);
    if n > 0 {
        lemma_through_character(n - 1, c, t, start, end, stamps);
        let rest = through(n - 1, t, start, end, stamps);
        let pat = mark(n - 1);
        let rep = told(n - 1, start, end, stamps);
        lemma_mark(n - 1);
        lemma_told_written(n - 1, start, end, stamps);
        assert forall|i: int| 0 <= i < seq![c].len() implies !#[trigger] occurs_at(
            seq![c] + rest,
            pat,
            i,
        ) by {
            assert(i == 0);
        }
        lemma_replaced_behind(seq![c], rest, pat, rep);
        assert forall|k: int| 0 <= k < 8 implies !occurs_at(
            seq![c] + replaced(rest, pat, rep),
            #[trigger] mark(k),
            0,
        ) by {
            lemma_mark_letters(k, rep[0]);
            if occurs_at(seq![c] + replaced(rest, pat, rep), mark(k), 0) {
                lemma_front_before(c, rest, pat, rep, mark(k));
            }
        }
    }
}

/// No placeholder that is known stands at the front of a text.
pub open spec fn unknown_front(s: Seq<char>) -> bool {
    &&& !begins_with(s, "${(b)timestamp}"@)
    &&& !begins_with(s, "${(b)yyyyMMddHHmmss:utc}"@)
    &&& !begins_with(s, "${(b)yyyyMMddHHmmss}"@)
    &&& !begins_with(s, "${(e)timestamp}"@)
    &&& !begins_with(s, "${(e)yyyyMMddHHmmss:utc}"@)
    &&& !begins_with(s, "${(e)yyyyMMddHHmmss}"@)
    &&& !begins_with(s, "{utc:YmdHMS}"@)
    &&& !begins_with(s, "{utcend:YmdHMS}"@)
}

/// A character at which no known placeholder begins is kept, whatever it is, and
/// the rest is filled as it would be alone: unknown placeholders stay.
pub proof fn law_character_kept(
    c: char,
    t: Seq<char>,
    start: int,
    end: int,
    stamps: StampsView,
)
    requires
        written(stamps),
        unknown_front(seq![c] + t),
    ensures
        filled(seq![c] + t, start, end, stamps) == seq![c] + filled(t, start, end, stamps),
{
    assert forall|k: int| 0 <= k < 8 implies !occurs_at(seq![c] + t, #[trigger] mark(k), 0) by {
        law_stands_in(seq![c] + t, mark(k));
    }
    lemma_filled_through(seq![c] + t, start, end, stamps);
    lemma_filled_through(t, start, end, stamps);
    lemma_through_character(8, c, t, start, end, stamps);
}

/// A template with one placeholder for each end.
proof fn lemma_two_filled(
    x: Seq<char>,
    j: int,
    y: Seq<char>,
    k: int,
    z: Seq<char>,
    start: int,
    end: int,
    stamps: StampsView,
)
    requires
        clean(x),
        clean(y),
        clean(z),
        0 <= j < 8,
        0 <= k < 8,
        written(stamps),
    ensures
        filled(x + mark(j) + y + mark(k) + z, start, end, stamps) == x + told(
            j,
            start,
            end,
            stamps,
        ) + y + told(k, start, end, stamps) + z,
{
    let a = told(j, start, end, stamps);
    let b = told(k, start, end, stamps);
    lemma_through_clean(8, z, seq![], start, end, stamps);
    lemma_through_nothing(8, start, end, stamps);
    assert(z + Seq::<char>::empty() =~= z);
    lemma_through_mark(8, k, z, start, end, stamps);
    lemma_through_clean(8, y, mark(k) + z, start, end, stamps);
    lemma_through_mark(8, j, y + (mark(k) + z), start, end, stamps);
    lemma_through_clean(8, x, mark(j) + (y + (mark(k) + z)), start, end, stamps);
    lemma_five(x, mark(j), y, mark(k), z);
    lemma_five(x, a, y, b, z);
    lemma_filled_through(x + mark(j) + y + mark(k) + z, start, end, stamps);
}

proof fn lemma_five(x: Seq<char>, a: Seq<char>, y: Seq<char>, b: Seq<char>, z: Seq<char>)
    ensures
        x + (a + (y + (b + z))) == x + a + y + b + z,
{
    assert(x + (a + (y + (b + z))) =~= x + a + y + b + z);
}

/// Nothing is left to fill in a text in which no placeholder begins.
proof fn lemma_clean_settled(text: Seq<char>)
    requires
        clean(text),
    ensures
        !unfilled(text),
{
    reveal_strlit("${");
    reveal_strlit("{utc:");
    reveal_strlit("{utcend:");
    assert forall|i: int|
        !#[trigger] occurs_at(text, "${"@, i) && !occurs_at(text, "{utc:"@, i) && !occurs_at(
            text,
            "{utcend:"@,
            i,
        ) by {
        if 0 <= i < text.len() {
            assert(text.contains(text[i]));
            lemma_not_at(text, "${"@, i);
            lemma_not_at(text, "{utc:"@, i);
            lemma_not_at(text, "{utcend:"@, i);
        }
    }
    assert forall|i: int| !#[trigger] occurs_at(text, "{utc:"@, i) by {
        assert(!occurs_at(text, "${"@, i));
    }
    assert forall|i: int| !#[trigger] occurs_at(text, "{utcend:"@, i) by {
        assert(!occurs_at(text, "${"@, i));
    }
}

proof fn lemma_clean_together(a: Seq<char>, b: Seq<char>)
    requires
        clean(a),
        clean(b),
    ensures
        clean(a + b),
{
    let s = a + b;
    assert forall|i: int| 0 <= i < s.len() implies s[i] != '$' && s[i] != '{' by {
        if i < a.len() {
            assert(a.contains(s[i]));
        } else {
            assert(s[i] == b[i - a.len()]);
            assert(b.contains(s[i]));
        }
    }
}

/// `r` is the address `text`, or a refusal if that cannot be fetched.
pub open spec fn answers(text: Seq<char>, r: Result<String, AppError>) -> bool {
    match r {
        Ok(url) => web_address(text) && url@ == text,
        Err(e) => !web_address(text) && e.says(Status::BadRequest, "invalid replay URL"@),
    }
}

/// The stamps that a replay address is filled with.
proof fn lemma_expanded(
    template: Seq<char>,
    start: i64,
    end: i64,
    r: Result<String, AppError>,
) -> (stamps: StampsView)
    requires
        expands(template, start, end, r),
        -8_334_601_228_800 <= start <= 8_210_266_876_799,
        -8_334_601_228_800 <= end <= 8_210_266_876_799,
    ensures
        written(stamps),
        stamps.start_utc == utc_stamp(start, "%Y%m%d%H%M%S"@),
        stamps.end_utc == utc_stamp(end, "%Y%m%d%H%M%S"@),
        local_time(start, "%Y%m%d%H%M%S"@, stamps.start_local),
        local_time(end, "%Y%m%d%H%M%S"@, stamps.end_local),
        settles(filled(template, start as int, end as int, stamps), r),
{
    choose|stamps: StampsView|
        {
            &&& #[trigger] stamps_of(stamps, start, end)
            &&& settles(filled(template, start as int, end as int, stamps), r)
        }
}

proof fn lemma_two_answered(
    x: Seq<char>,
    j: int,
    y: Seq<char>,
    k: int,
    z: Seq<char>,
    start: i64,
    end: i64,
    stamps: StampsView,
    r: Result<String, AppError>,
)
    requires
        clean(x),
        clean(y),
        clean(z),
        0 <= j < 8,
        0 <= k < 8,
        written(stamps),
        settles(
            filled(x + mark(j) + y + mark(k) + z, start as int, end as int, stamps),
            r,
        ),
    ensures
        answers(
            x + told(j, start as int, end as int, stamps) + y + told(
                k,
                start as int,
                end as int,
                stamps,
            ) + z,
            r,
        ),
{
    let a = told(j, start as int, end as int, stamps);
    let b = told(k, start as int, end as int, stamps);
    lemma_two_filled(x, j, y, k, z, start as int, end as int, stamps);
    lemma_told_clean(j, start as int, end as int, stamps);
    lemma_told_clean(k, start as int, end as int, stamps);
    lemma_clean_together(x, a);
    lemma_clean_together(x + a, y);
    lemma_clean_together(x + a + y, b);
    lemma_clean_together(x + a + y + b, z);
    lemma_clean_settled(x + a + y + b + z);
}

/// In the place of the local times a replay address has the start and the end as
/// the machine writes them in its time zone: the text of a local time is told by
/// asking for it, and no shift of another time stands for it.
pub proof fn law_replay_in_local_time(
    x: Seq<char>,
    y: Seq<char>,
    z: Seq<char>,
    start: i64,
    end: i64,
    r: Result<String, AppError>,
)
    requires
        clean(x),
        clean(y),
        clean(z),
        -8_334_601_228_800 <= start <= 8_210_266_876_799,
        -8_334_601_228_800 <= end <= 8_210_266_876_799,
        expands(
            x + "${(b)yyyyMMddHHmmss}"@ + y + "${(e)yyyyMMddHHmmss}"@ + z,
            start,
            end,
            r,
        ),
    ensures
        exists|a: Seq<char>, b: Seq<char>|
            {
                &&& #[trigger] local_time(start, "%Y%m%d%H%M%S"@, a)
                &&& #[trigger] local_time(end, "%Y%m%d%H%M%S"@, b)
                &&& answers(x + a + y + b + z, r)
            },
{
    let template = x + mark(2) + y + mark(5) + z;
    let stamps = lemma_expanded(template, start, end, r);
    lemma_two_answered(x, 2, y, 5, z, start, end, stamps, r);
    assert(local_time(start, "%Y%m%d%H%M%S"@, stamps.start_local));
    assert(local_time(end, "%Y%m%d%H%M%S"@, stamps.end_local));
}

/// In the place of the times in UTC a replay address has the start and the end as
/// written in UTC, in either form of the placeholders.
pub proof fn law_replay_in_utc(
    x: Seq<char>,
    y: Seq<char>,
    z: Seq<char>,
    start: i64,
    end: i64,
    r: Result<String, AppError>,
)
    requires
        clean(x),
        clean(y),
        clean(z),
        -8_334_601_228_800 <= start <= 8_210_266_876_799,
        -8_334_601_228_800 <= end <= 8_210_266_876_799,
        expands(
            x + "${(b)yyyyMMddHHmmss:utc}"@ + y + "${(e)yyyyMMddHHmmss:utc}"@ + z,
            start,
            end,
            r,
        ) || expands(x + "{utc:YmdHMS}"@ + y + "{utcend:YmdHMS}"@ + z, start, end, r),
    ensures
        answers(
            x + utc_stamp(start, "%Y%m%d%H%M%S"@) + y + utc_stamp(end, "%Y%m%d%H%M%S"@) + z,
            r,
        ),
{
    let one = x + mark(1) + y + mark(4) + z;
    let two = x + mark(6) + y + mark(7) + z;
    if expands(one, start, end, r) {
        let stamps = lemma_expanded(one, start, end, r);
        lemma_two_answered(x, 1, y, 4, z, start, end, stamps, r);
    } else {
        let stamps = lemma_expanded(two, start, end, r);
        lemma_two_answered(x, 6, y, 7, z, start, end, stamps, r);
    }
}

/// In the place of the seconds a replay address has the start and the end in
/// seconds.
pub proof fn law_replay_in_seconds(
    x: Seq<char>,
    y: Seq<char>,
    z: Seq<char>,
    start: i64,
    end: i64,
    r: Result<String, AppError>,
)
    requires
        clean(x),
        clean(y),
        clean(z),
        -8_334_601_228_800 <= start <= 8_210_266_876_799,
        -8_334_601_228_800 <= end <= 8_210_266_876_799,
        expands(x + "${(b)timestamp}"@ + y + "${(e)timestamp}"@ + z, start, end, r),
    ensures
        answers(
            x + signed_decimal(start as int) + y + signed_decimal(end as int) + z,
            r,
        ),
{
    let template = x + mark(0) + y + mark(3) + z;
    let stamps = lemma_expanded(template, start, end, r);
    lemma_two_answered(x, 0, y, 3, z, start, end, stamps, r);
}

/// Every replay address comes of the two times as the machine writes them, has no
/// placeholder left and can be fetched; a placeholder that is not known, an address
/// that cannot be fetched and a time that cannot be written are each refused as
/// such.
pub proof fn law_replay_answered(
    template: Seq<char>,
    start: i64,
    end: i64,
    r: Result<String, AppError>,
)
    requires
        expands(template, start, end, r),
    ensures
        -8_334_601_228_800 <= start <= 8_210_266_876_799 && -8_334_601_228_800 <= end
            <= 8_210_266_876_799 ==> exists|stamps: StampsView|
            {
                let text = #[trigger] filled(template, start as int, end as int, stamps);
                let left = has_text(text, "${"@) || has_text(text, "{utc:"@) || has_text(
                    text,
                    "{utcend:"@,
                );
                &&& stamps.start_utc == utc_stamp(start, "%Y%m%d%H%M%S"@)
                &&& stamps.end_utc == utc_stamp(end, "%Y%m%d%H%M%S"@)
                &&& local_time(start, "%Y%m%d%H%M%S"@, stamps.start_local)
                &&& local_time(end, "%Y%m%d%H%M%S"@, stamps.end_local)
                &&& r is Ok <==> !left && web_address(text)
                &&& r matches Ok(url) ==> url@ == text
                &&& left ==> (r matches Err(e) && e.says(
                    Status::BadRequest,
                    "unsupported replay template"@,
                ))
                &&& !left && !web_address(text) ==> (r matches Err(e) && e.says(
                    Status::BadRequest,
                    "invalid replay URL"@,
                ))
            },
        !(-8_334_601_228_800 <= start <= 8_210_266_876_799 && -8_334_601_228_800 <= end
            <= 8_210_266_876_799) ==> (r matches Err(e) && e.says(
            Status::BadRequest,
            "invalid replay time"@,
        )),
{
    if -8_334_601_228_800 <= start <= 8_210_266_876_799 && -8_334_601_228_800 <= end
        <= 8_210_266_876_799 {
        let stamps = lemma_expanded(template, start, end, r);
        let text = filled(template, start as int, end as int, stamps);
        assert(settles(text, r));
    }
}

/// The pattern of the times.
pub proof fn law_stamp_pattern()
    ensures
        stamp_pattern() == "%Y%m%d%H%M%S"@,
{
}

} // verus!
