//! What a filled replay template depends on.

use vstd::prelude::*;

use crate::failure::AppError;
use crate::listing::replay_link;
use crate::replay::{
    expands, filled, filled_end, placeholder, stamp_like, stamps_of, written, StampsView,
};
use crate::searching::{
    lemma_found_behind, lemma_occurs_chars, lemma_replaced_absent, lemma_replaced_keeps_absent,
};
use crate::text::{decimal, has_text, occurs_at, replaced, signed_decimal};

verus! {

/// A decimal notation is made of digits.
proof fn lemma_decimal_shape(n: nat)
    ensures
        decimal(n).len() > 0,
        forall|i: int| 0 <= i < decimal(n).len() ==> '0' <= #[trigger] decimal(n)[i] <= '9',
    decreases n,
{
    if n >= 10 {
        lemma_decimal_shape(n / 10);
    }
}

/// The number of seconds has the shape of a written time.
proof fn lemma_signed_decimal_shape(n: int)
    ensures
        stamp_like(signed_decimal(n)),
{
    if n < 0 {
        lemma_decimal_shape((-n) as nat);
    } else {
        lemma_decimal_shape(n as nat);
    }
}

/// The placeholder for the local time of one end of a replay.
pub open spec fn local_placeholder(end: Seq<char>) -> Seq<char> {
    placeholder(end, "yyyyMMddHHmmss"@)
}

/// Filling one end with written times brings in no placeholder for local time.
proof fn lemma_fill_keeps_absent(s: Seq<char>, pat: Seq<char>, rep: Seq<char>)
    requires
        stamp_like(rep),
        !has_text(s, local_placeholder("(b)"@)),
        !has_text(s, local_placeholder("(e)"@)),
    ensures
        !has_text(replaced(s, pat, rep), local_placeholder("(b)"@)),
        !has_text(replaced(s, pat, rep), local_placeholder("(e)"@)),
{
    reveal_strlit("${");
    reveal_strlit("(b)");
    reveal_strlit("(e)");
    reveal_strlit("yyyyMMddHHmmss");
    reveal_strlit("}");
    assert forall|i: int| 0 <= i < rep.len() implies !local_placeholder("(b)"@).contains(
        #[trigger] rep[i],
    ) && !local_placeholder("(e)"@).contains(rep[i]) by {
        let b = local_placeholder("(b)"@);
        let e = local_placeholder("(e)"@);
        assert forall|k: int| 0 <= k < b.len() implies b[k] != rep[i] by {}
        assert forall|k: int| 0 <= k < e.len() implies e[k] != rep[i] by {}
    }
    lemma_replaced_keeps_absent(s, pat, rep, local_placeholder("(b)"@));
    lemma_replaced_keeps_absent(s, pat, rep, local_placeholder("(e)"@));
}

/// A filled template without placeholders for local time does not depend on the
/// local times.
pub proof fn law_fill_without_local_times(
    template: Seq<char>,
    start: int,
    end: int,
    one: StampsView,
    two: StampsView,
)
    requires
        !has_text(template, local_placeholder("(b)"@)),
        !has_text(template, local_placeholder("(e)"@)),
        one.start_utc == two.start_utc,
        one.end_utc == two.end_utc,
        written(one),
    ensures
        filled(template, start, end, one) == filled(template, start, end, two),
{
    lemma_signed_decimal_shape(start);
    lemma_signed_decimal_shape(end);
    let b = "(b)"@;
    let e = "(e)"@;
    let s1 = replaced(template, placeholder(b, "timestamp"@), signed_decimal(start));
    lemma_fill_keeps_absent(template, placeholder(b, "timestamp"@), signed_decimal(start));
    let s2 = replaced(s1, placeholder(b, "yyyyMMddHHmmss:utc"@), one.start_utc);
    lemma_fill_keeps_absent(s1, placeholder(b, "yyyyMMddHHmmss:utc"@), one.start_utc);
    lemma_replaced_absent(s2, local_placeholder(b), one.start_local);
    lemma_replaced_absent(s2, local_placeholder(b), two.start_local);
    assert(filled_end(template, b, start, one.start_utc, one.start_local) == s2);
    let s3 = replaced(s2, placeholder(e, "timestamp"@), signed_decimal(end));
    lemma_fill_keeps_absent(s2, placeholder(e, "timestamp"@), signed_decimal(end));
    let s4 = replaced(s3, placeholder(e, "yyyyMMddHHmmss:utc"@), one.end_utc);
    lemma_fill_keeps_absent(s3, placeholder(e, "yyyyMMddHHmmss:utc"@), one.end_utc);
    lemma_replaced_absent(s4, local_placeholder(e), one.end_local);
    lemma_replaced_absent(s4, local_placeholder(e), two.end_local);
    assert(filled_end(s2, e, end, one.end_utc, one.end_local) == s4);
}

/// The replay address of a template without placeholders for local time is the
/// same in every time zone.
pub proof fn law_replay_without_local_times(
    template: Seq<char>,
    start: i64,
    end: i64,
    one: Result<String, AppError>,
    two: Result<String, AppError>,
)
    requires
        !has_text(template, local_placeholder("(b)"@)),
        !has_text(template, local_placeholder("(e)"@)),
        expands(template, start, end, one),
        expands(template, start, end, two),
    ensures
        match one {
            Ok(x) => two matches Ok(y) && x@ == y@,
            Err(x) => two matches Err(y) && y.says(x.0, x.1@),
        },
{
    if crate::replay::representable(start) && crate::replay::representable(end) {
        let a = choose|stamps: StampsView|
            {
                &&& #[trigger] stamps_of(stamps, start, end)
                &&& crate::replay::settles(
                    filled(template, start as int, end as int, stamps),
                    one,
                )
            };
        let b = choose|stamps: StampsView|
            {
                &&& #[trigger] stamps_of(stamps, start, end)
                &&& crate::replay::settles(
                    filled(template, start as int, end as int, stamps),
                    two,
                )
            };
        law_fill_without_local_times(template, start as int, end as int, a, b);
    }
}

/// A pattern stands nowhere in a text without its first character.
proof fn lemma_absent_without_first(s: Seq<char>, pat: Seq<char>)
    requires
        pat.len() > 0,
        !s.contains(pat[0]),
    ensures
        !has_text(s, pat),
{
    assert forall|i: int| !#[trigger] occurs_at(s, pat, i) by {
        if occurs_at(s, pat, i) {
            lemma_occurs_chars(s, pat, i);
            assert(pat[0] == s[i + 0]);
            assert(s.contains(s[i]));
        }
    }
}

/// A pattern stands nowhere in a text if it differs from what stands at the one
/// place where its first character does.
proof fn lemma_absent_at_only_place(
    x: Seq<char>,
    mark: Seq<char>,
    y: Seq<char>,
    pat: Seq<char>,
    k: int,
)
    requires
        pat.len() > 0,
        !x.contains(pat[0]),
        !y.contains(pat[0]),
        forall|j: int| 1 <= j < mark.len() ==> mark[j] != pat[0],
        0 <= k < pat.len(),
        k < mark.len(),
        mark[k] != pat[k],
    ensures
        !has_text(x + mark + y, pat),
{
    let s = x + mark + y;
    assert forall|i: int| !#[trigger] occurs_at(s, pat, i) by {
        if occurs_at(s, pat, i) {
            lemma_occurs_chars(s, pat, i);
            assert(pat[0] == s[i + 0]);
            if i < x.len() {
                assert(x.contains(x[i]));
            } else if i == x.len() {
                assert(pat[k] == s[i + k]);
                assert(s[i + k] == mark[k]);
            } else if i < x.len() + mark.len() {
                assert(s[i] == mark[i - x.len()]);
            } else {
                assert(s[i] == y[i - x.len() - mark.len()]);
                assert(y.contains(s[i]));
            }
        }
    }
}

/// A placeholder that stands once is replaced there.
proof fn lemma_replaced_once(x: Seq<char>, pat: Seq<char>, y: Seq<char>, rep: Seq<char>)
    requires
        pat.len() > 0,
        !x.contains(pat[0]),
        !has_text(y, pat),
    ensures
        replaced(x + pat + y, pat, rep) == x + rep + y,
{
    let s = x + pat + y;
    let i: int = x.len() as int;
    lemma_found_behind(x, pat, y);
    assert(s.take(i) =~= x);
    assert(s.skip(i + pat.len()) =~= y);
    lemma_replaced_absent(y, pat, rep);
}

/// The replay address that players are given, filled with two times, is the
/// replay request for these times.
pub proof fn law_listed_replay_fills(
    base: Seq<char>,
    id: Seq<char>,
    start: int,
    end: int,
    stamps: StampsView,
)
    requires
        !base.contains('$') && !base.contains('{'),
        !id.contains('$') && !id.contains('{'),
    ensures
        filled(replay_link(base, id), start, end, stamps) == base + "/catchup/"@ + id + "?start="@
            + signed_decimal(start) + "&end="@ + signed_decimal(end),
{
    reveal_strlit("/catchup/");
    reveal_strlit("?start=${(b)timestamp}&end=${(e)timestamp}");
    reveal_strlit("?start=");
    reveal_strlit("&end=");
    reveal_strlit("${");
    reveal_strlit("}");
    reveal_strlit("(b)");
    reveal_strlit("(e)");
    reveal_strlit("timestamp");
    reveal_strlit("yyyyMMddHHmmss:utc");
    reveal_strlit("yyyyMMddHHmmss");
    reveal_strlit("{utc:YmdHMS}");
    reveal_strlit("{utcend:YmdHMS}");
    let x = base + "/catchup/"@ + id + "?start="@;
    let y = "&end="@;
    let begin = signed_decimal(start);
    let finish = signed_decimal(end);
    let b = placeholder("(b)"@, "timestamp"@);
    let e = placeholder("(e)"@, "timestamp"@);
    let none = Seq::<char>::empty();
    lemma_signed_decimal_shape(start);
    lemma_signed_decimal_shape(end);
    lemma_fragment(base, id);
    assert(replay_link(base, id) =~= x + b + (y + e)) by {
        let query = "?start=${(b)timestamp}&end=${(e)timestamp}"@;
        assert(query =~= "?start="@ + b + y + e);
    }
    // The beginning of the replay is filled first.
    assert(y + e =~= y + e + none);
    lemma_absent_at_only_place(y, e, none, b, 3);
    lemma_replaced_once(x, b, y + e, begin);
    let s1 = x + begin + (y + e);
    let p = x + begin + y;
    assert(!p.contains('$') && !p.contains('{')) by {
        assert forall|k: int| 0 <= k < p.len() implies p[k] != '$' && p[k] != '{' by {
            if k < x.len() {
                assert(p[k] == x[k]);
                assert(x.contains(x[k]));
            } else if k < x.len() + begin.len() {
                assert(p[k] == begin[k - x.len()]);
            } else {
                assert(p[k] == y[k - x.len() - begin.len()]);
            }
        }
    }
    assert(s1 =~= p + e + none);
    let bu = placeholder("(b)"@, "yyyyMMddHHmmss:utc"@);
    let bl = placeholder("(b)"@, "yyyyMMddHHmmss"@);
    lemma_absent_at_only_place(p, e, none, bu, 3);
    lemma_absent_at_only_place(p, e, none, bl, 3);
    lemma_replaced_absent(s1, bu, stamps.start_utc);
    lemma_replaced_absent(s1, bl, stamps.start_local);
    assert(filled_end(replay_link(base, id), "(b)"@, start, stamps.start_utc, stamps.start_local)
        == s1);
    // Then its end, after which no placeholder is left.
    assert(!has_text(none, e)) by {
        lemma_absent_without_first(none, e);
    }
    lemma_replaced_once(p, e, none, finish);
    let s2 = p + finish + none;
    assert(!s2.contains('$') && !s2.contains('{')) by {
        assert forall|k: int| 0 <= k < s2.len() implies s2[k] != '$' && s2[k] != '{' by {
            if k < p.len() {
                assert(s2[k] == p[k]);
                assert(p.contains(p[k]));
            } else {
                assert(s2[k] == finish[k - p.len()]);
            }
        }
    }
    let eu = placeholder("(e)"@, "yyyyMMddHHmmss:utc"@);
    let el = placeholder("(e)"@, "yyyyMMddHHmmss"@);
    lemma_absent_without_first(s2, eu);
    lemma_absent_without_first(s2, el);
    lemma_replaced_absent(s2, eu, stamps.end_utc);
    lemma_replaced_absent(s2, el, stamps.end_local);
    assert(filled_end(s1, "(e)"@, end, stamps.end_utc, stamps.end_local) == s2);
    lemma_absent_without_first(s2, "{utc:YmdHMS}"@);
    lemma_absent_without_first(s2, "{utcend:YmdHMS}"@);
    lemma_replaced_absent(s2, "{utc:YmdHMS}"@, stamps.start_utc);
    lemma_replaced_absent(s2, "{utcend:YmdHMS}"@, stamps.end_utc);
    assert(s2 =~= x + begin + y + finish);
}

/// The part of the replay address before the first time holds no placeholder.
proof fn lemma_fragment(base: Seq<char>, id: Seq<char>)
    requires
        !base.contains('$') && !base.contains('{'),
        !id.contains('$') && !id.contains('{'),
    ensures
        !(base + "/catchup/"@ + id + "?start="@).contains('$'),
        !(base + "/catchup/"@ + id + "?start="@).contains('{'),
{
    reveal_strlit("/catchup/");
    reveal_strlit("?start=");
    let path = "/catchup/"@;
    let x = base + path + id + "?start="@;
    assert forall|k: int| 0 <= k < x.len() implies x[k] != '$' && x[k] != '{' by {
        if k < base.len() {
            assert(x[k] == base[k]);
            assert(base.contains(base[k]));
        } else if k < base.len() + path.len() {
            assert(x[k] == path[k - base.len()]);
        } else if k < base.len() + path.len() + id.len() {
            assert(x[k] == id[k - base.len() - path.len()]);
            assert(id.contains(x[k]));
        } else {
            assert(x[k] == "?start="@[k - base.len() - path.len() - id.len()]);
        }
    }
}

} // verus!
