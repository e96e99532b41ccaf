//! What the administration page shows of every source.

use vstd::prelude::*;

use crate::admin::{admin_page, shown_status, source_row, source_rows};
use crate::escape::{entity, escaped};
use crate::model::{Mode, SourceView};
use crate::runtime::{RuntimeView, StatusView};
use crate::text::{decimal, first_at, has_text, replaced};
use crate::text_laws::law_replaced;

verus! {

/// Escaping goes character by character: the five characters that mean something
/// in HTML become their entities, and every other one stays.
pub proof fn law_escaped(a: Seq<char>, b: Seq<char>, c: char)
    ensures
        escaped(a + b) == escaped(a) + escaped(b),
        escaped(seq![]) == Seq::<char>::empty(),
        escaped(seq!['&']) == "&amp;"@,
        escaped(seq!['<']) == "&lt;"@,
        escaped(seq!['>']) == "&gt;"@,
        escaped(seq!['"']) == "&quot;"@,
        escaped(seq!['\'']) == "&#39;"@,
        c != '&' && c != '<' && c != '>' && c != '"' && c != '\'' ==> escaped(seq![c]) == seq![c],
{
    lemma_escaped_one('&');
    lemma_escaped_one('<');
    lemma_escaped_one('>');
    lemma_escaped_one('"');
    lemma_escaped_one('\'');
    lemma_escaped_one(c);
    lemma_escaped_parts(a, b);
}

proof fn lemma_escaped_one(c: char)
    ensures
        escaped(seq![c]) == entity(c),
{
    assert(seq![c].drop_last() =~= seq![]);
    assert(escaped(seq![c].drop_last()) =~= seq![]);
    assert(Seq::<char>::empty() + entity(c) =~= entity(c));
}

proof fn lemma_escaped_parts(a: Seq<char>, b: Seq<char>)
    ensures
        escaped(a + b) == escaped(a) + escaped(b),
    decreases b.len(),
{
    if b.len() == 0 {
        assert(a + b =~= a);
        assert(escaped(a) + escaped(b) =~= escaped(a));
    } else {
        lemma_escaped_parts(a, b.drop_last());
        assert((a + b).drop_last() =~= a + b.drop_last());
        assert((a + b).last() == b.last());
        assert(escaped(a + b) =~= escaped(a) + escaped(b));
    }
}

/// A source that was tried is shown with how its last refresh went, and one that
/// was not with no channels and no failure.
pub proof fn law_shown_status(runtime: RuntimeView, id: Seq<char>)
    ensures
        runtime.source_status.contains_key(id) ==> shown_status(runtime, id)
            == runtime.source_status[id],
        !runtime.source_status.contains_key(id) ==> shown_status(runtime, id).count == 0
            && !shown_status(runtime, id).error,
{
}

/// The forms of a source hold its identifier, its name and its address, escaped;
/// they select its way of playing and check whether it is enabled. Below them
/// stand the way of playing, the number of channels, and remarks exactly if the
/// source is disabled or its refresh failed.
pub proof fn law_row_shows_source(source: SourceView, status: StatusView)
    ensures
        ({
            let direct = if source.mode == Mode::Direct {
                "selected"@
            } else {
                seq![]
            };
            let proxy = if source.mode == Mode::Proxy {
                "selected"@
            } else {
                seq![]
            };
            let label = if source.mode == Mode::Direct {
                "直连"@
            } else {
                "中转"@
            };
            let checked = if source.enabled {
                "checked"@
            } else {
                seq![]
            };
            let disabled = if source.enabled {
                seq![]
            } else {
                " · 已停用"@
            };
            let failed = if status.error {
                " · 刷新失败"@
            } else {
                seq![]
            };
            source_row(source, status)
                == "<article><form action=\"/admin/sources\" method=\"post\"><input type=\"hidden\" name=\"id\" value=\""@
                + escaped(source.id) + "\"><label>名称<input name=\"name\" required value=\""@
                + escaped(source.name)
                + "\"></label><label>订阅 URL<input name=\"url\" type=\"url\" required value=\""@
                + escaped(source.url)
                + "\"></label><label>播放方式<select name=\"mode\"><option value=\"direct\" "@
                + direct + ">直连</option><option value=\"proxy\" "@ + proxy
                + ">中转</option></select></label><label class=\"check\"><input type=\"checkbox\" name=\"enabled\" value=\"true\" "@
                + checked
                + ">启用</label><button type=\"submit\">保存</button></form><form action=\"/admin/sources/delete\" method=\"post\" onsubmit=\"return confirm('删除这条源？')\"><input type=\"hidden\" name=\"id\" value=\""@
                + escaped(source.id)
                + "\"><button class=\"secondary\" type=\"submit\">删除</button></form><p class=\"status\">"@
                + label + " · "@ + decimal(status.count) + " 个频道"@ + disabled + " "@ + failed
                + "</p></article>"@
        }),
{
}

/// The page shows every source once and in order, each with how its own last
/// refresh went.
pub proof fn law_rows_in_parts(
    one: Seq<SourceView>,
    two: Seq<SourceView>,
    source: SourceView,
    runtime: RuntimeView,
)
    ensures
        source_rows(one + two, runtime) == source_rows(one, runtime) + source_rows(two, runtime),
        source_rows(seq![source], runtime) == source_row(source, shown_status(runtime, source.id)),
        source_rows(seq![], runtime) == Seq::<char>::empty(),
{
    lemma_one_row(source, runtime);
    lemma_rows_parts(one, two, runtime);
}

proof fn lemma_one_row(source: SourceView, runtime: RuntimeView)
    ensures
        source_rows(seq![source], runtime) == source_row(source, shown_status(runtime, source.id)),
{
    assert(seq![source].drop_last() =~= seq![]);
    assert(source_rows(seq![source].drop_last(), runtime) =~= seq![]);
    lemma_nothing_before(source_row(source, shown_status(runtime, source.id)));
}

proof fn lemma_nothing_before(s: Seq<char>)
    ensures
        Seq::<char>::empty() + s == s,
{
    assert(Seq::<char>::empty() + s =~= s);
}

proof fn lemma_grouped(a: Seq<char>, b: Seq<char>, c: Seq<char>)
    ensures
        a + b + c == a + (b + c),
{
    assert(a + b + c =~= a + (b + c));
}

proof fn lemma_rows_parts(one: Seq<SourceView>, two: Seq<SourceView>, runtime: RuntimeView)
    ensures
        source_rows(one + two, runtime) == source_rows(one, runtime) + source_rows(two, runtime),
    decreases two.len(),
{
    if two.len() == 0 {
        assert(one + two =~= one);
        assert(source_rows(one, runtime) + Seq::<char>::empty() =~= source_rows(one, runtime));
    } else {
        lemma_rows_parts(one, two.drop_last(), runtime);
        assert((one + two).drop_last() =~= one + two.drop_last());
        assert((one + two).last() == two.last());
        lemma_grouped(
            source_rows(one, runtime),
            source_rows(two.drop_last(), runtime),
            source_row(two.last(), shown_status(runtime, two.last().id)),
        );
    }
}

/// The page is the template with the sources, or a remark that there are none, in
/// place of the mark; what stands around the mark stays.
pub proof fn law_page_around_rows(
    before: Seq<char>,
    after: Seq<char>,
    sources: Seq<SourceView>,
    runtime: RuntimeView,
)
    requires
        first_at(
            before + "{{SOURCE_ROWS}}"@ + after,
            "{{SOURCE_ROWS}}"@,
            before.len() as int,
        ),
        !has_text(after, "{{SOURCE_ROWS}}"@),
    ensures
        sources.len() > 0 ==> admin_page(before + "{{SOURCE_ROWS}}"@ + after, sources, runtime)
            == before + source_rows(sources, runtime) + after,
        sources.len() == 0 ==> admin_page(before + "{{SOURCE_ROWS}}"@ + after, sources, runtime)
            == before + "<p class=\"empty\">暂无源</p>"@ + after,
{
    reveal_strlit("{{SOURCE_ROWS}}");
    let mark = "{{SOURCE_ROWS}}"@;
    let rows = source_rows(sources, runtime);
    if sources.len() > 0 {
        lemma_rows_not_empty(sources, runtime);
        law_replaced(before, mark, after, rows);
        law_replaced(after, mark, after, rows);
    } else {
        let none = "<p class=\"empty\">暂无源</p>"@;
        law_replaced(before, mark, after, none);
        law_replaced(after, mark, after, none);
    }
}

/// Every mark of the template gives way to the same text.
pub proof fn law_page_marks(
    template: Seq<char>,
    sources: Seq<SourceView>,
    runtime: RuntimeView,
)
    ensures
        sources.len() > 0 ==> admin_page(template, sources, runtime) == replaced(
            template,
            "{{SOURCE_ROWS}}"@,
            source_rows(sources, runtime),
        ),
        sources.len() == 0 ==> admin_page(template, sources, runtime) == replaced(
            template,
            "{{SOURCE_ROWS}}"@,
            "<p class=\"empty\">暂无源</p>"@,
        ),
{
    if sources.len() > 0 {
        lemma_rows_not_empty(sources, runtime);
    }
}

proof fn lemma_rows_not_empty(sources: Seq<SourceView>, runtime: RuntimeView)
    requires
        sources.len() > 0,
    ensures
        source_rows(sources, runtime).len() > 0,
{
    reveal_strlit("</p></article>");
}

} // verus!
