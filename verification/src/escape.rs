//! Text inside HTML.

use vstd::prelude::*;

use crate::text::chars_of;

verus! {

/// What stands for a character inside an attribute value or an element.
pub open spec fn entity(c: char) -> Seq<char> {
    if c == '&' {
        "&amp;"@
    } else if c == '<' {
        "&lt;"@
    } else if c == '>' {
        "&gt;"@
    } else if c == '"' {
        "&quot;"@
    } else if c == '\'' {
        "&#39;"@
    } else {
        seq![c]
    }
}

/// `s` with each character that HTML gives a meaning replaced by its entity.
pub open spec fn escaped(s: Seq<char>) -> Seq<char>
    decreases s.len(),
{
    if s.len() == 0 {
        seq![]
    } else {
        escaped(s.drop_last()) + entity(s.last())
    }
}

/// A text with each character that HTML gives a meaning replaced by its entity.
pub fn escape(value: &str) -> (r: String)
    ensures
        r@ == escaped(value@),
{
    let chars = chars_of(value);
    let mut r = String::new();
    let mut i: usize = 0;
    assert(r@ =~= escaped(chars@.take(0)));
    while i < chars.len()
        invariant
            i <= chars.len(),
            r@ == escaped(chars@.take(i as int)),
        decreases chars.len() - i,
    {
        let c: char = chars[i];
        let ghost before = r@;
        if c == '&' {
            r.append("&amp;");
        } else if c == '<' {
            r.append("&lt;");
        } else if c == '>' {
            r.append("&gt;");
        } else if c == '"' {
            r.append("&quot;");
        } else if c == '\'' {
            r.append("&#39;");
        } else {
            r.push(c);
            assert(r@ =~= before + seq![c]);
        }
        i += 1;
        assert(chars@.take(i as int).drop_last() =~= chars@.take(i - 1));
        assert(chars@.take(i as int).last() == c);
    }
    assert(chars@.take(i as int) =~= chars@);
    r
}

/// What the entities are made of.
proof fn lemma_entity(c: char)
    ensures
        entity(c).len() > 0,
        entity(c)[0] == '&' <==> c == '&' || c == '<' || c == '>' || c == '"' || c == '\'',
        entity(c)[0] == '&' ==> entity(c).len() > 2,
        entity(c)[0] != '&' ==> entity(c).len() == 1 && entity(c)[0] == c,
        c == '&' ==> entity(c)[1] == 'a',
        c == '<' ==> entity(c)[1] == 'l',
        c == '>' ==> entity(c)[1] == 'g',
        c == '"' ==> entity(c)[1] == 'q',
        c == '\'' ==> entity(c)[1] == '#',
        forall|k: int|
            0 <= k < entity(c).len() ==> #[trigger] entity(c)[k] != '<' && entity(c)[k] != '>'
                && entity(c)[k] != '"' && entity(c)[k] != '\'',
{
    reveal_strlit("&amp;");
    reveal_strlit("&lt;");
    reveal_strlit("&gt;");
    reveal_strlit("&quot;");
    reveal_strlit("&#39;");
}

/// An escaped text neither opens or closes a tag nor ends an attribute value.
pub proof fn law_escaped_inert(s: Seq<char>)
    ensures
        !escaped(s).contains('<'),
        !escaped(s).contains('>'),
        !escaped(s).contains('"'),
        !escaped(s).contains('\''),
    decreases s.len(),
{
    if s.len() > 0 {
        let head = escaped(s.drop_last());
        let tail = entity(s.last());
        law_escaped_inert(s.drop_last());
        lemma_entity(s.last());
        assert forall|k: int| 0 <= k < escaped(s).len() implies #[trigger] escaped(s)[k] != '<'
            && escaped(s)[k] != '>' && escaped(s)[k] != '"' && escaped(s)[k] != '\'' by {
            if k < head.len() {
                assert(escaped(s)[k] == head[k]);
                assert(head.contains(head[k]));
            } else {
                assert(escaped(s)[k] == tail[k - head.len()]);
            }
        }
    }
}

/// An escaped text begins with what stands for its first character.
proof fn lemma_escaped_first(s: Seq<char>)
    requires
        s.len() > 0,
    ensures
        escaped(s) == entity(s[0]) + escaped(s.drop_first()),
    decreases s.len(),
{
    if s.len() == 1 {
        assert(s.drop_last() =~= seq![]);
        assert(s.drop_first() =~= seq![]);
        assert(escaped(s) =~= entity(s[0]) + escaped(s.drop_first()));
    } else {
        lemma_escaped_first(s.drop_last());
        assert(s.drop_last().drop_first() =~= s.drop_first().drop_last());
        assert(escaped(s) =~= entity(s[0]) + escaped(s.drop_first()));
    }
}

/// Different texts are escaped differently: what a page shows is the value.
pub proof fn law_escaped_injective(a: Seq<char>, b: Seq<char>)
    requires
        escaped(a) == escaped(b),
    ensures
        a == b,
    decreases a.len(),
{
    if a.len() > 0 {
        lemma_escaped_first(a);
        lemma_entity(a[0]);
    }
    if b.len() > 0 {
        lemma_escaped_first(b);
        lemma_entity(b[0]);
    }
    if a.len() == 0 || b.len() == 0 {
        assert(a.len() > 0 ==> escaped(a).len() > 0);
        assert(b.len() > 0 ==> escaped(b).len() > 0);
        assert(a =~= b);
    } else {
        let x = escaped(a);
        let y = escaped(b);
        let p = entity(a[0]);
        let q = entity(b[0]);
        assert(x[0] == p[0]);
        assert(y[0] == q[0]);
        if p[0] == '&' {
            assert(x[1] == p[1]);
            assert(y[1] == q[1]);
        }
        assert(a[0] == b[0]);
        assert(x.skip(p.len() as int) =~= escaped(a.drop_first()));
        assert(y.skip(p.len() as int) =~= escaped(b.drop_first()));
        law_escaped_injective(a.drop_first(), b.drop_first());
        assert(a =~= seq![a[0]] + a.drop_first());
        assert(b =~= seq![b[0]] + b.drop_first());
    }
}

} // verus!
