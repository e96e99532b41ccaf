use home_iptv_proxy::admin::{
    admin, delete_source, described_source, put_source, require_admin, save_source, settle_write,
    SourceForm,
};
use home_iptv_proxy::escape::escape;
use home_iptv_proxy::failure::{AppError, Status};
use home_iptv_proxy::model::{Config, Mode, Source};
use home_iptv_proxy::runtime::{refresh, Runtime};

const KEY: Option<&str> = Some("Basic YWRtaW46cGFzcw==");

fn source(id: &str, name: &str, enabled: bool) -> Source {
    Source {
        id: id.to_string(),
        name: name.to_string(),
        url: "http://host/list.m3u".to_string(),
        mode: Mode::Proxy,
        enabled,
        upstream_base_url: Some("http://inner".to_string()),
    }
}

fn config(sources: Vec<Source>) -> Config {
    Config {
        bind: "b".to_string(),
        public_base_url: Some("p".to_string()),
        refresh_minutes: 7,
        signing_secret: "s".to_string(),
        sources,
    }
}

fn form(id: Option<&str>, name: &str, url: &str) -> SourceForm {
    SourceForm {
        id: id.map(str::to_string),
        name: name.to_string(),
        url: url.to_string(),
        mode: Mode::Direct,
        enabled: true,
    }
}

fn ids(config: &Config) -> Vec<String> {
    config.sources.iter().map(|source| source.id.clone()).collect()
}

fn refused(e: AppError, status: Status, text: &str) {
    assert_eq!(e.0, status);
    assert_eq!(e.1, text);
}

#[test]
fn the_administrator_is_known_by_the_password() {
    assert!(require_admin("pass", KEY).is_ok());
    assert!(require_admin("密码", Some("Basic YWRtaW465a+G56CB")).is_ok());
    for given in [
        None,
        Some(""),
        Some("YWRtaW46cGFzcw=="),
        Some("basic YWRtaW46cGFzcw=="),
        Some("Basic  YWRtaW46cGFzcw=="),
        Some("Basic YWRtaW46cGFzcw"),
        Some("Basic YWRtaW46cGFzcx=="),
        Some("Basic cm9vdDpwYXNz"),
        Some("Basic YWRtaW46cGFzczE="),
        Some("Basic /w=="),
        Some("Basic "),
    ] {
        refused(
            require_admin("pass", given).unwrap_err(),
            Status::Unauthorized,
            "Authentication required",
        );
    }
    assert!(require_admin("other", KEY).is_err());
}

#[test]
fn text_is_escaped_for_the_page() {
    assert_eq!(
        escape("a&b<c>\"d\"'e'&amp;源"),
        "a&amp;b&lt;c&gt;&quot;d&quot;&#39;e&#39;&amp;amp;源"
    );
    assert_eq!(escape(""), "");
    assert_ne!(escape("&lt;"), escape("<"));
}

#[test]
fn the_page_shows_the_sources() {
    let sources = vec![source("s1", "A<B", true), source("s2", "C", false)];
    let runtime = refresh(&sources, vec![None, None], &Runtime::new());
    let page = admin("pass", KEY, "<h1>{{SOURCE_ROWS}}</h1>", &sources, &runtime).unwrap();
    let first = "<article><form action=\"/admin/sources\" method=\"post\"><input type=\"hidden\" name=\"id\" value=\"s1\"><label>名称<input name=\"name\" required value=\"A&lt;B\"></label><label>订阅 URL<input name=\"url\" type=\"url\" required value=\"http://host/list.m3u\"></label><label>播放方式<select name=\"mode\"><option value=\"direct\" >直连</option><option value=\"proxy\" selected>中转</option></select></label><label class=\"check\"><input type=\"checkbox\" name=\"enabled\" value=\"true\" checked>启用</label><button type=\"submit\">保存</button></form><form action=\"/admin/sources/delete\" method=\"post\" onsubmit=\"return confirm('删除这条源？')\"><input type=\"hidden\" name=\"id\" value=\"s1\"><button class=\"secondary\" type=\"submit\">删除</button></form><p class=\"status\">中转 · 0 个频道  · 刷新失败</p></article>";
    assert!(page.starts_with(&format!("<h1>{first}<article>")));
    assert!(page.ends_with("<p class=\"status\">中转 · 0 个频道 · 已停用 </p></article></h1>"));
}

#[test]
fn an_empty_page_says_so() {
    let page = admin("pass", KEY, "{{SOURCE_ROWS}}|{{SOURCE_ROWS}}", &vec![], &Runtime::new());
    let remark = "<p class=\"empty\">暂无源</p>";
    assert_eq!(page.unwrap(), format!("{remark}|{remark}"));
    refused(
        admin("pass", None, "{{SOURCE_ROWS}}", &vec![], &Runtime::new()).unwrap_err(),
        Status::Unauthorized,
        "Authentication required",
    );
}

#[test]
fn a_new_source_comes_last() {
    let before = config(vec![source("a", "A", true)]);
    let after = save_source("pass", KEY, &before, &form(None, " Name ", " http://host/list.m3u\n"), 42)
        .unwrap();
    assert_eq!(ids(&after), ["a", "c145f3e622fb649600c75d0c"]);
    let added = &after.sources[1];
    assert_eq!(added.name, "Name");
    assert_eq!(added.url, "http://host/list.m3u");
    assert_eq!(added.mode, Mode::Direct);
    assert!(added.enabled);
    assert_eq!(added.upstream_base_url, None);
    assert_eq!(after.sources[0].name, "A");
    assert_eq!(after.bind, "b");
    assert_eq!(after.public_base_url.as_deref(), Some("p"));
    assert_eq!(after.refresh_minutes, 7);
    assert_eq!(after.signing_secret, "s");
    let same = save_source("pass", KEY, &before, &form(Some(""), "Name", "http://host/list.m3u"), 42);
    assert_eq!(ids(&same.unwrap()), ids(&after));
    let other = save_source("pass", KEY, &before, &form(None, "Name", "http://host/list.m3u"), 43);
    assert_ne!(ids(&other.unwrap()), ids(&after));
}

#[test]
fn an_edited_source_keeps_its_place() {
    let before = config(vec![
        source("a", "A", true),
        source("b", "B", false),
        source("c", "C", true),
    ]);
    let after = save_source("pass", KEY, &before, &form(Some("b"), "New", "https://x/"), 1).unwrap();
    assert_eq!(ids(&after), ["a", "b", "c"]);
    assert_eq!(after.sources[1].name, "New");
    assert_eq!(after.sources[1].url, "https://x/");
    assert!(after.sources[1].enabled);
    assert_eq!(after.sources[1].upstream_base_url.as_deref(), Some("http://inner"));
    assert_eq!(after.sources[0].name, "A");
    assert_eq!(after.sources[2].name, "C");
    let again = save_source("pass", KEY, &after, &form(Some("b"), "New", "https://x/"), 2).unwrap();
    assert_eq!(ids(&again), ids(&after));
    assert_eq!(again.sources[1].name, "New");
}

#[test]
fn an_incomplete_source_is_refused() {
    let before = config(vec![]);
    for (name, url) in [("", "http://a/"), ("  ", "http://a/"), ("n", ""), ("n", "ftp://a/"), ("n", "a")] {
        refused(
            save_source("pass", KEY, &before, &form(None, name, url), 1).unwrap_err(),
            Status::BadRequest,
            "Invalid source",
        );
    }
    refused(
        save_source("pass", None, &before, &form(None, "", ""), 1).unwrap_err(),
        Status::Unauthorized,
        "Authentication required",
    );
}

#[test]
fn deleting_leaves_the_other_sources() {
    let before = config(vec![
        source("a", "A", true),
        source("b", "B", true),
        source("a", "A2", true),
        source("c", "C", true),
    ]);
    let after = delete_source("pass", KEY, &before, "a").unwrap();
    assert_eq!(ids(&after), ["b", "c"]);
    assert_eq!(after.signing_secret, "s");
    assert_eq!(after.sources[0].upstream_base_url.as_deref(), Some("http://inner"));
    assert_eq!(ids(&delete_source("pass", KEY, &after, "a").unwrap()), ["b", "c"]);
    assert_eq!(ids(&delete_source("pass", KEY, &after, "").unwrap()), ["b", "c"]);
    refused(
        delete_source("pass", Some("Basic x"), &before, "a").unwrap_err(),
        Status::Unauthorized,
        "Authentication required",
    );
}

#[test]
fn deleting_undoes_adding() {
    let before = config(vec![source("a", "A", true), source("b", "B", true)]);
    let added = save_source("pass", KEY, &before, &form(Some("new"), "N", "http://n/"), 1).unwrap();
    assert_eq!(ids(&added), ["a", "b", "new"]);
    let after = delete_source("pass", KEY, &added, "new").unwrap();
    assert_eq!(ids(&after), ids(&before));
}

#[test]
fn a_form_describes_a_source() {
    let given = form(None, "  N ", " u ");
    let source = described_source(&given, "id".to_string(), true).unwrap();
    assert_eq!(source.id, "id");
    assert_eq!(source.name, "N");
    assert_eq!(source.url, "u");
    assert_eq!(source.mode, Mode::Direct);
    assert!(source.enabled);
    assert_eq!(source.upstream_base_url, None);
    refused(
        described_source(&given, "id".to_string(), false).unwrap_err(),
        Status::BadRequest,
        "Invalid source",
    );
    let nameless = form(None, " ", "u");
    assert!(described_source(&nameless, "id".to_string(), true).is_err());
}

#[test]
fn a_source_is_put_in_place_of_the_first_with_its_identifier() {
    let before = config(vec![source("a", "A", true), source("b", "B", true), source("a", "C", true)]);
    let mut new = source("a", "New", false);
    new.upstream_base_url = None;
    let after = put_source(&before, new);
    assert_eq!(ids(&after), ["a", "b", "a"]);
    assert_eq!(after.sources[0].name, "New");
    assert_eq!(after.sources[0].upstream_base_url.as_deref(), Some("http://inner"));
    assert_eq!(after.sources[2].name, "C");
    assert_eq!(ids(&put_source(&after, source("d", "D", true))), ["a", "b", "a", "d"]);
}

#[test]
fn a_failed_write_is_answered() {
    assert!(settle_write(true).is_ok());
    refused(
        settle_write(false).unwrap_err(),
        Status::InternalServerError,
        "Save failed",
    );
}
