//! Administration: who may do it, the page, and editing the sources.

use vstd::prelude::*;
use vstd::slice::slice_subrange;
use vstd::utf8::{
    decode_utf8_encode_utf8, encode_utf8, encode_utf8_decode_utf8, encode_utf8_valid_utf8,
};

use crate::encoding::{
    base64_standard, decode_base64_standard, lemma_base64_standard_injective,
};
use crate::escape::{escape, escaped};
use crate::failure::{AppError, Status};
use crate::model::{
    copy_optional, optional_text, source_views, Config, ConfigView, Mode, Source, SourceView,
};
use crate::runtime::{Runtime, RuntimeView, SourceStatus, StatusView};
use crate::saving_laws::{first_with, law_edit_in_place};
use crate::signing::{hex_id, identifier};
use crate::text::{
    chars_of, decimal, decimal_chars, replace_chars, replaced, same_text, starts_with_chars,
    string_from_utf8, string_of, trim_chars, trimmed,
};
use crate::weburl::{valid_url, web_address};

verus! {

/// The `Authorization` header of the administrator.
pub open spec fn credentials(password: Seq<char>) -> Seq<char> {
    "Basic "@ + base64_standard(encode_utf8("admin:"@ + password))
}

/// Whether a request comes from the administrator. `authorization` is its
/// `Authorization` header, if it has one that is text.
pub fn require_admin(password: &str, authorization: Option<&str>) -> (r: Result<(), AppError>)
    ensures
        r is Ok <==> (authorization matches Some(given) && given@ == credentials(password@)),
        r matches Err(e) ==> e.says(Status::Unauthorized, "Authentication required"@),
{
    match authorization {
        Some(given) => {
            if holds_credentials(password, given) {
                Ok(())
            } else {
                Err(AppError(Status::Unauthorized, "Authentication required"))
            }
        },
        None => Err(AppError(Status::Unauthorized, "Authentication required")),
    }
}

fn holds_credentials(password: &str, given: &str) -> (r: bool)
    ensures
        r == (given@ == credentials(password@)),
{
    let chars = chars_of(given);
    let scheme = chars_of("Basic ");
    let ghost expected = encode_utf8("admin:"@ + password@);
    if !starts_with_chars(&chars, &scheme) {
        proof {
            assert(credentials(password@).take("Basic "@.len() as int) =~= "Basic "@);
        }
        return false;
    }
    let encoded = slice_subrange(&chars, scheme.len(), chars.len());
    proof {
        assert(given@ =~= "Basic "@ + encoded@);
        if given@ == credentials(password@) {
            assert(encoded@ =~= credentials(password@).skip("Basic "@.len() as int));
            assert(encoded@ =~= base64_standard(expected));
        }
    }
    match decode_base64_standard(string_of(encoded).as_str()) {
        None => false,
        Some(bytes) => {
            let ghost decoded = bytes@;
            proof {
                if given@ == credentials(password@) {
                    lemma_base64_standard_injective(decoded, expected);
                }
                encode_utf8_valid_utf8("admin:"@ + password@);
                encode_utf8_decode_utf8("admin:"@ + password@);
            }
            match string_from_utf8(bytes) {
                None => false,
                Some(pair) => {
                    proof {
                        decode_utf8_encode_utf8(decoded);
                    }
                    let mut wanted = "admin:".to_owned();
                    wanted.append(password);
                    same_text(pair.as_str(), wanted.as_str())
                },
            }
        },
    }
}

/// `text` if the condition holds, and nothing otherwise.
pub open spec fn marked(condition: bool, text: Seq<char>) -> Seq<char> {
    if condition {
        text
    } else {
        seq![]
    }
}

fn mark(condition: bool, text: &'static str) -> (r: &'static str)
    ensures
        r@ == marked(condition, text@),
{
    if condition {
        text
    } else {
        proof {
            reveal_strlit("");
        }
        assert(""@ =~= seq![]);
        ""
    }
}

/// How the last refresh of a source went, for the page.
pub open spec fn shown_status(runtime: RuntimeView, id: Seq<char>) -> StatusView {
    if runtime.source_status.contains_key(id) {
        runtime.source_status[id]
    } else {
        StatusView { count: 0, error: false }
    }
}

/// The part of the page on one source: the form that edits it, the form that
/// deletes it, and how its last refresh went.
pub open spec fn source_row(source: SourceView, status: StatusView) -> Seq<char> {
    "<article><form action=\"/admin/sources\" method=\"post\"><input type=\"hidden\" name=\"id\" value=\""@
        + escaped(source.id)
        + "\"><label>名称<input name=\"name\" required value=\""@
        + escaped(source.name)
        + "\"></label><label>订阅 URL<input name=\"url\" type=\"url\" required value=\""@
        + escaped(source.url)
        + "\"></label><label>播放方式<select name=\"mode\"><option value=\"direct\" "@
        + marked(source.mode == Mode::Direct, "selected"@)
        + ">直连</option><option value=\"proxy\" "@
        + marked(source.mode == Mode::Proxy, "selected"@)
        + ">中转</option></select></label><label class=\"check\"><input type=\"checkbox\" name=\"enabled\" value=\"true\" "@
        + marked(source.enabled, "checked"@)
        + ">启用</label><button type=\"submit\">保存</button></form><form action=\"/admin/sources/delete\" method=\"post\" onsubmit=\"return confirm('删除这条源？')\"><input type=\"hidden\" name=\"id\" value=\""@
        + escaped(source.id)
        + "\"><button class=\"secondary\" type=\"submit\">删除</button></form><p class=\"status\">"@
        + source.mode.label_text()
        + " · "@
        + decimal(status.count)
        + " 个频道"@
        + marked(!source.enabled, " · 已停用"@)
        + " "@
        + marked(status.error, " · 刷新失败"@)
        + "</p></article>"@
}

/// The parts of the page on all sources.
pub open spec fn source_rows(sources: Seq<SourceView>, runtime: RuntimeView) -> Seq<char>
    decreases sources.len(),
{
    if sources.len() == 0 {
        seq![]
    } else {
        source_rows(sources.drop_last(), runtime) + source_row(
            sources.last(),
            shown_status(runtime, sources.last().id),
        )
    }
}

/// The page: `template` with the sources, or a remark that there are none, in
/// the place of the mark.
pub open spec fn admin_page(
    template: Seq<char>,
    sources: Seq<SourceView>,
    runtime: RuntimeView,
) -> Seq<char> {
    let rows = source_rows(sources, runtime);
    replaced(
        template,
        "{{SOURCE_ROWS}}"@,
        if rows.len() == 0 {
            "<p class=\"empty\">暂无源</p>"@
        } else {
            rows
        },
    )
}

fn push_row(r: &mut String, source: &Source, status: SourceStatus)
    ensures
        final(r)@ == old(r)@ + source_row(source@, status.deep_view()),
{
    let row = render_row(source, status);
    r.append(row.as_str());
}

fn render_row(source: &Source, status: SourceStatus) -> (r: String)
    ensures
        r@ == source_row(source@, status.deep_view()),
{
    let count = string_of(&decimal_chars(status.count as u128));
    let mut r = String::new();
    r.append("<article><form action=\"/admin/sources\" method=\"post\"><input type=\"hidden\" name=\"id\" value=\"");
    r.append(escape(source.id.as_str()).as_str());
    r.append("\"><label>名称<input name=\"name\" required value=\"");
    r.append(escape(source.name.as_str()).as_str());
    r.append("\"></label><label>订阅 URL<input name=\"url\" type=\"url\" required value=\"");
    r.append(escape(source.url.as_str()).as_str());
    r.append("\"></label><label>播放方式<select name=\"mode\"><option value=\"direct\" ");
    r.append(mark(source.mode == Mode::Direct, "selected"));
    r.append(">直连</option><option value=\"proxy\" ");
    r.append(mark(source.mode == Mode::Proxy, "selected"));
    r.append(">中转</option></select></label><label class=\"check\"><input type=\"checkbox\" name=\"enabled\" value=\"true\" ");
    r.append(mark(source.enabled, "checked"));
    r.append(">启用</label><button type=\"submit\">保存</button></form><form action=\"/admin/sources/delete\" method=\"post\" onsubmit=\"return confirm('删除这条源？')\"><input type=\"hidden\" name=\"id\" value=\"");
    r.append(escape(source.id.as_str()).as_str());
    r.append("\"><button class=\"secondary\" type=\"submit\">删除</button></form><p class=\"status\">");
    r.append(source.mode.label());
    r.append(" · ");
    r.append(count.as_str());
    r.append(" 个频道");
    r.append(mark(!source.enabled, " · 已停用"));
    r.append(" ");
    r.append(mark(status.error, " · 刷新失败"));
    r.append("</p></article>");
    assert(r@ =~= source_row(source@, status.deep_view()));
    r
}

/// The administration page, for the administrator alone. `template` holds the
/// mark `{{SOURCE_ROWS}}` where the sources stand.
pub fn admin(
    password: &str,
    authorization: Option<&str>,
    template: &str,
    sources: &Vec<Source>,
    runtime: &Runtime,
) -> (r: Result<String, AppError>)
    requires
        runtime.wf(),
    ensures
        match r {
            Ok(page) => {
                &&& authorization matches Some(given) && given@ == credentials(password@)
                &&& page@ == admin_page(template@, source_views(sources@), runtime@)
            },
            Err(e) => {
                &&& authorization matches Some(given) ==> given@ != credentials(password@)
                &&& e.says(Status::Unauthorized, "Authentication required"@)
            },
        },
{
    match require_admin(password, authorization) {
        Ok(_) => {},
        Err(e) => {
            return Err(e);
        },
    }
    let mut rows = String::new();
    let ghost all = source_views(sources@);
    let mut i: usize = 0;
    assert(all.take(0) =~= seq![]);
    assert(rows@ =~= seq![]);
    while i < sources.len()
        invariant
            i <= sources.len(),
            runtime.wf(),
            all == source_views(sources@),
            rows@ == source_rows(all.take(i as int), runtime@),
        decreases sources.len() - i,
    {
        assert(all.take(i + 1).drop_last() =~= all.take(i as int));
        assert(all.take(i + 1).last() == sources@[i as int]@);
        let status = runtime.status(sources[i].id.as_str());
        push_row(&mut rows, &sources[i], status);
        i += 1;
    }
    assert(all.take(i as int) =~= all);
    if rows.as_str().is_empty() {
        rows.append("<p class=\"empty\">暂无源</p>");
        assert(rows@ =~= "<p class=\"empty\">暂无源</p>"@);
    }
    proof {
        reveal_strlit("{{SOURCE_ROWS}}");
    }
    let page = replace_chars(
        &chars_of(template),
        &chars_of("{{SOURCE_ROWS}}"),
        &chars_of(rows.as_str()),
    );
    Ok(string_of(&page))
}

/// A source as the page sends it.
pub struct SourceForm {
    pub id: Option<String>,
    pub name: String,
    pub url: String,
    pub mode: Mode,
    pub enabled: bool,
}

/// The identifier of a source that is saved: the one that it has, or a new one
/// made of its name, its address and a number that does not come twice.
pub open spec fn saved_id(
    id: Option<Seq<char>>,
    name: Seq<char>,
    url: Seq<char>,
    nonce: nat,
) -> Seq<char> {
    match id {
        Some(known) => if known.len() > 0 {
            known
        } else {
            identifier(name + ":"@ + url + ":"@ + decimal(nonce))
        },
        None => identifier(name + ":"@ + url + ":"@ + decimal(nonce)),
    }
}

/// The source that a form describes. White space around its name and address is
/// dropped. The page does not set where the service reaches the source.
pub open spec fn form_source(form: SourceForm, nonce: nat) -> SourceView {
    let name = trimmed(form.name@);
    let url = trimmed(form.url@);
    SourceView {
        id: saved_id(optional_text(form.id), name, url, nonce),
        name: name,
        url: url,
        mode: form.mode,
        enabled: form.enabled,
        upstream_base_url: None,
    }
}

/// The position of the first source with an identifier.
pub open spec fn first_source(sources: Seq<SourceView>, id: Seq<char>) -> Option<int>
    decreases sources.len(),
{
    if sources.len() == 0 {
        None
    } else {
        match first_source(sources.drop_last(), id) {
            Some(i) => Some(i),
            None => if sources.last().id == id {
                Some(sources.len() - 1)
            } else {
                None
            },
        }
    }
}

/// The sources with one saved: in place of the first with its identifier, whose
/// upstream place it keeps, or at the end.
pub open spec fn with_source(sources: Seq<SourceView>, source: SourceView) -> Seq<SourceView> {
    match first_source(sources, source.id) {
        Some(i) => sources.update(
            i,
            SourceView { upstream_base_url: sources[i].upstream_base_url, ..source },
        ),
        None => sources.push(source),
    }
}

/// The sources without those with an identifier.
pub open spec fn without_source(sources: Seq<SourceView>, id: Seq<char>) -> Seq<SourceView>
    decreases sources.len(),
{
    if sources.len() == 0 {
        seq![]
    } else if sources.last().id == id {
        without_source(sources.drop_last(), id)
    } else {
        without_source(sources.drop_last(), id).push(sources.last())
    }
}

proof fn lemma_first_source_found(sources: Seq<SourceView>, i: int, id: Seq<char>)
    requires
        0 <= i < sources.len(),
        first_source(sources.take(i + 1), id) == Some(i),
    ensures
        first_source(sources, id) == Some(i),
    decreases sources.len(),
{
    if i + 1 == sources.len() {
        assert(sources.take(i + 1) =~= sources);
    } else {
        assert(sources.drop_last().take(i + 1) =~= sources.take(i + 1));
        lemma_first_source_found(sources.drop_last(), i, id);
    }
}

fn find_source(sources: &Vec<Source>, id: &str) -> (r: Option<usize>)
    ensures
        match r {
            Some(i) => i < sources@.len() && first_source(source_views(sources@), id@) == Some(
                i as int,
            ),
            None => first_source(source_views(sources@), id@) is None,
        },
{
    let ghost all = source_views(sources@);
    let mut i: usize = 0;
    assert(all.take(0) =~= seq![]);
    while i < sources.len()
        invariant
            i <= sources.len(),
            all == source_views(sources@),
            first_source(all.take(i as int), id@) is None,
        decreases sources.len() - i,
    {
        assert(all.take(i + 1).drop_last() =~= all.take(i as int));
        assert(all.take(i + 1).last() == sources@[i as int]@);
        if same_text(sources[i].id.as_str(), id) {
            proof {
                lemma_first_source_found(all, i as int, id@);
            }
            return Some(i);
        }
        i += 1;
    }
    assert(all.take(i as int) =~= all);
    None
}

fn copy_sources(sources: &Vec<Source>) -> (r: Vec<Source>)
    ensures
        source_views(r@) == source_views(sources@),
{
    let mut r: Vec<Source> = Vec::new();
    let mut i: usize = 0;
    while i < sources.len()
        invariant
            i <= sources.len(),
            r@.len() == i,
            forall|j: int| 0 <= j < i ==> (#[trigger] r@[j])@ == sources@[j]@,
        decreases sources.len() - i,
    {
        let copy = sources[i].clone();
        r.push(copy);
        i += 1;
    }
    assert(source_views(r@) =~= source_views(sources@));
    r
}

fn choose_id(id: &Option<String>, name: &str, url: &str, nonce: u128) -> (r: String)
    ensures
        r@ == saved_id(optional_text(*id), name@, url@, nonce as nat),
        *id matches Some(known) && known@.len() > 0 ==> r@ == id->0@,
{
    match id {
        Some(known) => {
            if !known.as_str().is_empty() {
                return known.clone();
            }
        },
        None => {},
    }
    let mut key = name.to_owned();
    key.append(":");
    key.append(url);
    key.append(":");
    key.append(string_of(&decimal_chars(nonce)).as_str());
    hex_id(key.as_str())
}

/// The source that a form describes, under the given identifier. `fetchable`
/// tells whether its address can be fetched: one without such an address, or
/// without a name, is refused.
pub fn described_source(form: &SourceForm, id: String, fetchable: bool) -> (r: Result<
    Source,
    AppError,
>)
    ensures
        match r {
            Ok(source) => {
                &&& trimmed(form.name@).len() > 0 && fetchable
                &&& source@ == (SourceView {
                    id: id@,
                    name: trimmed(form.name@),
                    url: trimmed(form.url@),
                    mode: form.mode,
                    enabled: form.enabled,
                    upstream_base_url: None,
                })
            },
            Err(e) => {
                &&& trimmed(form.name@).len() == 0 || !fetchable
                &&& e.says(Status::BadRequest, "Invalid source"@)
            },
        },
{
    let name = string_of(trim_chars(&chars_of(form.name.as_str())));
    let url = string_of(trim_chars(&chars_of(form.url.as_str())));
    if name.as_str().is_empty() || !fetchable {
        return Err(AppError(Status::BadRequest, "Invalid source"));
    }
    Ok(
        Source {
            id,
            name,
            url,
            mode: form.mode,
            enabled: form.enabled,
            upstream_base_url: None,
        },
    )
}

/// The configuration with a source put in.
pub fn put_source(config: &Config, source: Source) -> (r: Config)
    ensures
        r@ == (ConfigView { sources: with_source(config@.sources, source@), ..config@ }),
{
    let mut sources = copy_sources(&config.sources);
    let mut source = source;
    let ghost before = source_views(sources@);
    let ghost given = source@;
    match find_source(&sources, source.id.as_str()) {
        Some(i) => {
            source.upstream_base_url = copy_optional(&sources[i].upstream_base_url);
            let ghost row = source@;
            sources.set(i, source);
            assert(source_views(sources@) =~= before.update(i as int, row));
        },
        None => {
            sources.push(source);
            assert(source_views(sources@) =~= before.push(given));
        },
    }
    config.with_sources(sources)
}

/// The configuration with a source saved, for the administrator alone. A source
/// without a name, or without an address that can be fetched, is refused.
/// `nonce` makes the identifier of a new source; it should not come twice.
pub fn save_source(
    password: &str,
    authorization: Option<&str>,
    config: &Config,
    form: &SourceForm,
    nonce: u128,
) -> (r: Result<Config, AppError>)
    ensures
        if !(authorization matches Some(given) && given@ == credentials(password@)) {
            r matches Err(e) && e.says(Status::Unauthorized, "Authentication required"@)
        } else if trimmed(form.name@).len() == 0 || !web_address(trimmed(form.url@)) {
            r matches Err(e) && e.says(Status::BadRequest, "Invalid source"@)
        } else {
            r matches Ok(updated) && updated@ == (ConfigView {
                sources: with_source(config@.sources, form_source(*form, nonce as nat)),
                ..config@
            })
        },
        forall|i: int|
            #![trigger config@.sources[i]]
            r is Ok && (form.id matches Some(known) && known@.len() > 0 && first_with(
                config@.sources,
                known@,
                i,
            )) ==> {
                let sources = r->Ok_0@.sources;
                &&& sources.len() == config@.sources.len()
                &&& sources[i].id == config@.sources[i].id
                &&& sources[i].name == trimmed(form.name@)
                &&& sources[i].url == trimmed(form.url@)
                &&& sources[i].mode == form.mode
                &&& sources[i].enabled == form.enabled
            },
{
    match require_admin(password, authorization) {
        Ok(_) => {},
        Err(e) => {
            return Err(e);
        },
    }
    let name = string_of(trim_chars(&chars_of(form.name.as_str())));
    let url = string_of(trim_chars(&chars_of(form.url.as_str())));
    let id = choose_id(&form.id, name.as_str(), url.as_str(), nonce);
    proof {
        assert forall|i: int|
            #![trigger config@.sources[i]]
            form.id matches Some(known) && known@.len() > 0 && first_with(
                config@.sources,
                known@,
                i,
            ) implies ({
            let sources = with_source(config@.sources, form_source(*form, nonce as nat));
            &&& sources.len() == config@.sources.len()
            &&& sources[i].id == config@.sources[i].id
            &&& sources[i].name == trimmed(form.name@)
            &&& sources[i].url == trimmed(form.url@)
            &&& sources[i].mode == form.mode
            &&& sources[i].enabled == form.enabled
        }) by {
            law_edit_in_place(config@.sources, *form, nonce as nat, i);
        }
    }
    match described_source(form, id, valid_url(url.as_str())) {
        Ok(source) => Ok(put_source(config, source)),
        Err(e) => Err(e),
    }
}

/// What comes of storing an edited configuration: a failure is answered as such.
pub fn settle_write(written: bool) -> (r: Result<(), AppError>)
    ensures
        match r {
            Ok(_) => written,
            Err(e) => !written && e.says(Status::InternalServerError, "Save failed"@),
        },
{
    if written {
        Ok(())
    } else {
        Err(AppError(Status::InternalServerError, "Save failed"))
    }
}

/// The configuration without a source, for the administrator alone.
pub fn delete_source(
    password: &str,
    authorization: Option<&str>,
    config: &Config,
    id: &str,
) -> (r: Result<Config, AppError>)
    ensures
        if !(authorization matches Some(given) && given@ == credentials(password@)) {
            r matches Err(e) && e.says(Status::Unauthorized, "Authentication required"@)
        } else {
            r matches Ok(updated) && updated@ == (ConfigView {
                sources: without_source(config@.sources, id@),
                ..config@
            })
        },
{
    match require_admin(password, authorization) {
        Ok(_) => {},
        Err(e) => {
            return Err(e);
        },
    }
    let mut sources: Vec<Source> = Vec::new();
    let ghost all = source_views(config.sources@);
    let mut i: usize = 0;
    assert(all.take(0) =~= seq![]);
    assert(source_views(sources@) =~= seq![]);
    while i < config.sources.len()
        invariant
            i <= config.sources.len(),
            all == source_views(config.sources@),
            source_views(sources@) == without_source(all.take(i as int), id@),
        decreases config.sources.len() - i,
    {
        assert(all.take(i + 1).drop_last() =~= all.take(i as int));
        assert(all.take(i + 1).last() == config.sources@[i as int]@);
        let ghost before = sources@;
        if !same_text(config.sources[i].id.as_str(), id) {
            let copy = config.sources[i].clone();
            sources.push(copy);
            assert(source_views(sources@) =~= source_views(before).push(copy@));
        }
        i += 1;
    }
    assert(all.take(i as int) =~= all);
    Ok(config.with_sources(sources))
}

} // verus!
