//! The data of the service: configured sources, channels and the
//! configuration.

use vstd::prelude::*;

use crate::text::texts;

verus! {

/// How the channels of a source are played.
#[derive(Debug, Clone, Copy, PartialEq, Eq, Structural)]
pub enum Mode {
    /// The player fetches the channel itself.
    Direct,
    /// The service fetches the channel for the player.
    Proxy,
}

impl Mode {
    /// The name shown on the administration page.
    pub open spec fn label_text(self) -> Seq<char> {
        match self {
            Mode::Direct => "直连"@,
            Mode::Proxy => "中转"@,
        }
    }

    /// The name shown on the administration page.
    pub fn label(self) -> (r: &'static str)
        ensures
            r@ == self.label_text(),
    {
        match self {
            Mode::Direct => "直连",
            Mode::Proxy => "中转",
        }
    }

    /// The value of the `access-mode` attribute.
    pub open spec fn access_text(self) -> Seq<char> {
        match self {
            Mode::Direct => "direct"@,
            Mode::Proxy => "proxy"@,
        }
    }

    /// The value of the `access-mode` attribute.
    pub fn access(self) -> (r: &'static str)
        ensures
            r@ == self.access_text(),
    {
        match self {
            Mode::Direct => "direct",
            Mode::Proxy => "proxy",
        }
    }
}

/// The address that the service listens on unless told otherwise.
pub fn default_bind() -> (r: String)
    ensures
        r@ == "0.0.0.0:28788"@,
{
    "0.0.0.0:28788".to_owned()
}

/// The minutes between two refreshes unless told otherwise.
pub fn default_refresh() -> (r: u64)
    ensures
        r == 30,
{
    30
}

/// The view of an optional string.
pub open spec fn optional_text(o: Option<String>) -> Option<Seq<char>> {
    match o {
        Some(s) => Some(s@),
        None => None,
    }
}

/// A copy of an optional string.
pub fn copy_optional(o: &Option<String>) -> (r: Option<String>)
    ensures
        optional_text(r) == optional_text(*o),
{
    match o {
        Some(s) => Some(s.clone()),
        None => None,
    }
}

/// A copy of a list of strings.
pub fn copy_strings(list: &Vec<String>) -> (r: Vec<String>)
    ensures
        texts(r@) == texts(list@),
{
    let mut r: Vec<String> = Vec::new();
    let mut i: usize = 0;
    while i < list.len()
        invariant
            i <= list.len(),
            texts(r@) == texts(list@.take(i as int)),
        decreases list.len() - i,
    {
        let copy = list[i].clone();
        assert(copy@ == list@[i as int]@);
        let ghost before = r@;
        r.push(copy);
        i += 1;
        assert(texts(r@) =~= texts(before).push(list@[i - 1]@));
        assert(texts(list@.take(i as int)) =~= texts(list@.take(i - 1)).push(list@[i - 1]@));
    }
    assert(list@.take(i as int) =~= list@);
    r
}

/// A source of channels as configured.
#[derive(Debug)]
pub struct Source {
    pub id: String,
    pub name: String,
    pub url: String,
    pub mode: Mode,
    pub enabled: bool,
    /// Where the service reaches what the source publishes under another
    /// address; used when relaying only.
    pub upstream_base_url: Option<String>,
}

/// The contents of a `Source`.
#[verifier::ext_equal]
pub struct SourceView {
    pub id: Seq<char>,
    pub name: Seq<char>,
    pub url: Seq<char>,
    pub mode: Mode,
    pub enabled: bool,
    pub upstream_base_url: Option<Seq<char>>,
}

impl View for Source {
    type V = SourceView;

    open spec fn view(&self) -> SourceView {
        SourceView {
            id: self.id@,
            name: self.name@,
            url: self.url@,
            mode: self.mode,
            enabled: self.enabled,
            upstream_base_url: optional_text(self.upstream_base_url),
        }
    }
}

impl Clone for Source {
    fn clone(&self) -> (r: Source)
        ensures
            r@ == self@,
    {
        Source {
            id: self.id.clone(),
            name: self.name.clone(),
            url: self.url.clone(),
            mode: self.mode,
            enabled: self.enabled,
            upstream_base_url: copy_optional(&self.upstream_base_url),
        }
    }
}

/// The contents of a list of sources.
pub open spec fn source_views(list: Seq<Source>) -> Seq<SourceView> {
    list.map_values(|s: Source| s@)
}

/// A channel of the aggregated list.
#[derive(Debug)]
pub struct Channel {
    pub id: String,
    pub source_id: String,
    pub source_name: String,
    pub mode: Mode,
    /// The `#EXTINF:` line of the source.
    pub extinf: String,
    pub url: String,
    /// The replay template of the source, if the channel can be replayed.
    pub catchup: Option<String>,
    pub upstream_base_url: Option<String>,
}

/// The contents of a `Channel`.
#[verifier::ext_equal]
pub struct ChannelView {
    pub id: Seq<char>,
    pub source_id: Seq<char>,
    pub source_name: Seq<char>,
    pub mode: Mode,
    pub extinf: Seq<char>,
    pub url: Seq<char>,
    pub catchup: Option<Seq<char>>,
    pub upstream_base_url: Option<Seq<char>>,
}

impl View for Channel {
    type V = ChannelView;

    open spec fn view(&self) -> ChannelView {
        ChannelView {
            id: self.id@,
            source_id: self.source_id@,
            source_name: self.source_name@,
            mode: self.mode,
            extinf: self.extinf@,
            url: self.url@,
            catchup: optional_text(self.catchup),
            upstream_base_url: optional_text(self.upstream_base_url),
        }
    }
}

impl Clone for Channel {
    fn clone(&self) -> (r: Channel)
        ensures
            r@ == self@,
    {
        Channel {
            id: self.id.clone(),
            source_id: self.source_id.clone(),
            source_name: self.source_name.clone(),
            mode: self.mode,
            extinf: self.extinf.clone(),
            url: self.url.clone(),
            catchup: copy_optional(&self.catchup),
            upstream_base_url: copy_optional(&self.upstream_base_url),
        }
    }
}

/// The contents of a list of channels.
pub open spec fn channel_views(list: Seq<Channel>) -> Seq<ChannelView> {
    list.map_values(|c: Channel| c@)
}

/// The configuration of the service.
#[derive(Debug)]
pub struct Config {
    pub bind: String,
    pub public_base_url: Option<String>,
    pub refresh_minutes: u64,
    pub signing_secret: String,
    pub sources: Vec<Source>,
}

/// The contents of a `Config`.
#[verifier::ext_equal]
pub struct ConfigView {
    pub bind: Seq<char>,
    pub public_base_url: Option<Seq<char>>,
    pub refresh_minutes: u64,
    pub signing_secret: Seq<char>,
    pub sources: Seq<SourceView>,
}

impl View for Config {
    type V = ConfigView;

    open spec fn view(&self) -> ConfigView {
        ConfigView {
            bind: self.bind@,
            public_base_url: optional_text(self.public_base_url),
            refresh_minutes: self.refresh_minutes,
            signing_secret: self.signing_secret@,
            sources: source_views(self.sources@),
        }
    }
}

impl Config {
    /// The same configuration with other sources.
    pub fn with_sources(&self, sources: Vec<Source>) -> (r: Config)
        ensures
            r@ == (ConfigView { sources: source_views(sources@), ..self@ }),
    {
        Config {
            bind: self.bind.clone(),
            public_base_url: copy_optional(&self.public_base_url),
            refresh_minutes: self.refresh_minutes,
            signing_secret: self.signing_secret.clone(),
            sources,
        }
    }
}

} // verus!
