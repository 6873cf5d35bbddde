//! `data/state/ntfy.md`: where notifications go when a browser cannot take
//! them.
//!
//! This lives under `state/` rather than in `settings.md` because a topic on a
//! public server is a bearer capability and a token is a secret outright.

use vstd::prelude::*;

use crate::document::{reads_document, refuses_document, strings_view, Document};
use crate::error::Error;
use crate::text::{append, chars_of, has_prefix, is_whitespace, is_ws, starts_with, string_of, trim, trimmed};
use crate::yaml::{front_count, front_entries, front_others, front_text, lemma_others_agree};

verus! {

/// The public ntfy server, used unless the file names another.
pub open spec fn default_server() -> Seq<char> {
    "https://ntfy.sh"@
}

/// A URL a request can be made to.
pub open spec fn is_http(url: Seq<char>) -> bool {
    starts_with(url, "http://"@) || starts_with(url, "https://"@)
}

/// The public server is one a request can be made to.
pub proof fn lemma_default_server_is_http()
    ensures
        is_http(default_server()),
{
    reveal_strlit("https://ntfy.sh");
    reveal_strlit("https://");
    assert(default_server().subrange(0, 8) =~= "https://"@);
}

/// A control character, as `char::is_control` has it.
pub open spec fn is_control(c: char) -> bool {
    (c as u32) <= 0x1F || (0x7F <= (c as u32) && (c as u32) <= 0x9F)
}

/// A topic is one URL path segment: no whitespace, control character or
/// slash.
pub open spec fn topic_usable(topic: Seq<char>) -> bool {
    forall|i: int| 0 <= i < topic.len() ==> !(is_ws(#[trigger] topic[i]) || is_control(topic[i]) || topic[i] == '/')
}

/// The text with every trailing `c` removed.
pub open spec fn strip_trailing(s: Seq<char>, c: char) -> Seq<char>
    decreases s.len(),
{
    if s.len() > 0 && s.last() == c {
        strip_trailing(s.drop_last(), c)
    } else {
        s
    }
}

/// A frontmatter string, trimmed, blank read as absent.
pub open spec fn value_read(t: Map<Seq<char>, Seq<char>>, key: Seq<char>) -> Option<Seq<char>> {
    if t.contains_key(key) && trim(t[key]).len() > 0 {
        Some(trim(t[key]))
    } else {
        None
    }
}

/// Server, topic, token and app URL.
pub type NtfyView = (Seq<char>, Option<Seq<char>>, Option<Seq<char>>, Option<Seq<char>>);

pub open spec fn text_view(s: Option<String>) -> Option<Seq<char>> {
    match s {
        Some(x) => Some(x@),
        None => None,
    }
}

/// Where notifications are published, and what proves the right to publish.
#[derive(Debug)]
pub struct NtfyConfig {
    /// Base URL of the ntfy server.
    pub server: String,
    /// The topic to publish to; `None` means the channel is off.
    pub topic: Option<String>,
    /// Bearer token for a protected topic.
    pub token: Option<String>,
    /// The app's external origin; `None` means notifications carry no link.
    pub app_url: Option<String>,
    document: Document,
}

impl View for NtfyConfig {
    type V = NtfyView;

    closed spec fn view(&self) -> NtfyView {
        (self.server@, text_view(self.topic), text_view(self.token), text_view(self.app_url))
    }
}

/// What may be changed about the ntfy channel. Every field omitted leaves the
/// setting as it was; `server` has no cleared state, and for the others
/// `Some(None)` clears the field.
#[derive(Debug, PartialEq, Eq)]
pub struct NtfyPatch {
    pub server: Option<String>,
    pub topic: Option<Option<String>>,
    pub token: Option<Option<String>>,
    pub app_url: Option<Option<String>>,
}

impl NtfyPatch {
    /// True when there is nothing to write.
    pub fn is_empty(&self) -> (empty: bool)
        ensures
            empty == (self.server is None && self.topic is None && self.token is None && self.app_url is None),
    {
        self.server.is_none() && self.topic.is_none() && self.token.is_none() && self.app_url.is_none()
    }
}

impl Default for NtfyPatch {
    fn default() -> (patch: Self)
        ensures
            patch.server is None && patch.topic is None && patch.token is None && patch.app_url is None,
    {
        NtfyPatch { server: None, topic: None, token: None, app_url: None }
    }
}

/// What a patch's server asks for: nothing, the public server for a blank,
/// or the trimmed URL.
pub open spec fn server_wanted(given: Option<String>) -> Option<Seq<char>> {
    match given {
        Some(s) => if trim(s@).len() == 0 {
            Some(default_server())
        } else {
            Some(trim(s@))
        },
        None => None,
    }
}

/// What a doubly-optional field asks for: nothing, a clear (blank counts),
/// or the trimmed value.
pub open spec fn clear_wanted(given: Option<Option<String>>) -> Option<Option<Seq<char>>> {
    match given {
        Some(Some(s)) => if trim(s@).len() == 0 {
            Some(None)
        } else {
            Some(Some(trim(s@)))
        },
        Some(None) => Some(None),
        None => None,
    }
}

pub open spec fn server_refused(p: NtfyPatch) -> bool {
    server_wanted(p.server) matches Some(s) && !is_http(s)
}

pub open spec fn topic_refused(p: NtfyPatch) -> bool {
    clear_wanted(p.topic) matches Some(Some(t)) && !topic_usable(t)
}

pub open spec fn app_url_refused(p: NtfyPatch) -> bool {
    clear_wanted(p.app_url) matches Some(Some(u)) && !is_http(u)
}

pub open spec fn or_keep<T>(edit: Option<T>, old: T) -> T {
    match edit {
        Some(v) => v,
        None => old,
    }
}

/// The config after a patch that was not refused.
pub open spec fn patched(v: NtfyView, p: NtfyPatch) -> NtfyView {
    (
        or_keep(server_wanted(p.server), v.0),
        or_keep(clear_wanted(p.topic), v.1),
        or_keep(clear_wanted(p.token), v.2),
        or_keep(clear_wanted(p.app_url), v.3),
    )
}

/// The frontmatter strings a config writes over the ones it read.
pub open spec fn ntfy_front_text(t: Map<Seq<char>, Seq<char>>, v: NtfyView) -> Map<Seq<char>, Seq<char>> {
    let t1 = t.insert("server"@, v.0);
    let t2 = match v.1 {
        Some(x) => t1.insert("topic"@, x),
        None => t1.remove("topic"@),
    };
    let t3 = match v.2 {
        Some(x) => t2.insert("token"@, x),
        None => t2.remove("token"@),
    };
    match v.3 {
        Some(x) => t3.insert("app_url"@, x),
        None => t3.remove("app_url"@),
    }
}

pub open spec fn ntfy_front_count(c: Map<Seq<char>, nat>) -> Map<Seq<char>, nat> {
    c.remove("server"@).remove("topic"@).remove("token"@).remove("app_url"@)
}

/// Reads a frontmatter string, treating blank as absent.
fn value(document: &Document, key: &str) -> (found: Option<String>)
    ensures
        text_view(found) == value_read(front_text(document.front()), key@),
{
    match document.front_text_value(key) {
        Some(raw) => {
            let t = trimmed(&chars_of(raw.as_str()));
            if t.len() > 0 {
                Some(string_of(&t))
            } else {
                None
            }
        },
        None => None,
    }
}

fn set_or_clear(document: &mut Document, key: &str, value: &Option<String>)
    ensures
        front_text(final(document).front()) == match value {
            Some(v) => front_text(old(document).front()).insert(key@, v@),
            None => front_text(old(document).front()).remove(key@),
        },
        front_count(final(document).front()) == front_count(old(document).front()).remove(key@),
        front_entries(final(document).front()).remove((true, key@)) == front_entries(old(document).front()).remove(
            (true, key@),
        ),
        final(document).section_list() == old(document).section_list(),
        final(document).preamble_lines() == old(document).preamble_lines(),
        final(document).has_front() == old(document).has_front(),
{
    match value {
        Some(v) => document.set_front_text(key, v.as_str()),
        None => {
            let ghost before = document.front();
            document.remove_front_key(key);
            assert(front_entries(document.front()).remove((true, key@)) =~= front_entries(before).remove((true, key@)));
        },
    }
}

/// The frontmatter keys the ntfy config writes; every other key is the
/// user's and is written back as it was.
pub open spec fn ntfy_keys() -> Set<Seq<char>> {
    set!["server"@, "topic"@, "token"@, "app_url"@]
}

fn url_ok(url: &[char]) -> (ok: bool)
    ensures
        ok == is_http(url@),
{
    has_prefix(url, &chars_of("http://")) || has_prefix(url, &chars_of("https://"))
}

fn topic_ok(topic: &[char]) -> (ok: bool)
    ensures
        ok == topic_usable(topic@),
{
    let mut i: usize = 0;
    while i < topic.len()
        invariant
            i <= topic@.len(),
            forall|j: int| 0 <= j < i ==> !(is_ws(#[trigger] topic@[j]) || is_control(topic@[j]) || topic@[j] == '/'),
        decreases topic.len() - i,
    {
        let c = topic[i];
        let u: u32 = c as u32;
        if is_whitespace(c) || u <= 0x1F || (0x7F <= u && u <= 0x9F) || c == '/' {
            return false;
        }
        i = i + 1;
    }
    true
}

/// The text with every trailing `c` removed.
fn stripped(s: &[char], c: char) -> (t: Vec<char>)
    ensures
        t@ == strip_trailing(s@, c),
{
    let mut end: usize = s.len();
    assert(s@.subrange(0, end as int) =~= s@);
    while end > 0 && s[end - 1] == c
        invariant
            end <= s@.len(),
            strip_trailing(s@, c) == strip_trailing(s@.subrange(0, end as int), c),
        decreases end,
    {
        assert(s@.subrange(0, end as int).drop_last() =~= s@.subrange(0, end - 1));
        end = end - 1;
    }
    crate::text::slice(s, 0, end)
}

impl NtfyConfig {
    pub closed spec fn document(self) -> Document {
        self.document
    }

    /// The public server, no topic, no token, no link, and a file that warns
    /// it holds a credential.
    pub fn default() -> (config: Self)
        ensures
            config@ == (default_server(), None::<Seq<char>>, None::<Seq<char>>, None::<Seq<char>>),
            config.document().preamble_lines() == seq![
                Seq::<char>::empty(),
                "# ntfy"@,
                Seq::<char>::empty(),
                "Contains a credential. Do not commit or share this file."@,
                Seq::<char>::empty(),
            ],
            config.document().section_list().len() == 0,
            config.document().has_front(),
            front_text(config.document().front()).is_empty(),
    {
        let mut document = Document::new();
        let mut preamble: Vec<String> = Vec::new();
        preamble.push(String::new());
        preamble.push("# ntfy".to_owned());
        preamble.push(String::new());
        preamble.push("Contains a credential. Do not commit or share this file.".to_owned());
        preamble.push(String::new());
        assert(strings_view(preamble@) =~= seq![
            Seq::<char>::empty(),
            "# ntfy"@,
            Seq::<char>::empty(),
            "Contains a credential. Do not commit or share this file."@,
            Seq::<char>::empty(),
        ]);
        document.set_preamble(preamble);
        NtfyConfig { server: "https://ntfy.sh".to_owned(), topic: None, token: None, app_url: None, document }
    }

    /// Reads the config, falling back for any value that is missing or blank.
    pub fn parse(text: &str) -> (result: Result<Self, Error>)
        ensures
            match result {
                Ok(c) => {
                    let t = front_text(c.document().front());
                    &&& reads_document(text@, c.document())
                    &&& c@ == (
                        or_keep(value_read(t, "server"@), default_server()),
                        value_read(t, "topic"@),
                        value_read(t, "token"@),
                        value_read(t, "app_url"@),
                    )
                },
                Err(e) => refuses_document(text@, e),
            },
    {
        let document = match Document::parse(text) {
            Ok(d) => d,
            Err(e) => return Err(e),
        };
        let server = match value(&document, "server") {
            Some(s) => s,
            None => "https://ntfy.sh".to_owned(),
        };
        let topic = value(&document, "topic");
        let token = value(&document, "token");
        let app_url = value(&document, "app_url");
        Ok(NtfyConfig { server, topic, token, app_url, document })
    }

    /// Writes the config into its frontmatter, keeping any other key, and
    /// leaving no key for a field that is absent.
    pub fn render(&self) -> (text: String)
        ensures
            exists|written: Document| #![auto]
                front_text(written.front()) == ntfy_front_text(front_text(self.document().front()), self@)
                    && front_count(written.front()) == ntfy_front_count(front_count(self.document().front()))
                    && written.preamble_lines() == self.document().preamble_lines()
                    && written.section_list() == self.document().section_list()
                    && written.has_front() == self.document().has_front() && text@ == written.text()
                    && front_others(written.front(), ntfy_keys()) == front_others(self.document().front(), ntfy_keys()),
    {
        let mut document = self.document.copy();
        let ghost keys = ntfy_keys();
        let ghost f0 = document.front();
        document.set_front_text("server", self.server.as_str());
        let ghost f1 = document.front();
        set_or_clear(&mut document, "topic", &self.topic);
        let ghost f2 = document.front();
        set_or_clear(&mut document, "token", &self.token);
        let ghost f3 = document.front();
        set_or_clear(&mut document, "app_url", &self.app_url);
        proof {
            lemma_others_agree(f0, f1, "server"@, keys);
            lemma_others_agree(f1, f2, "topic"@, keys);
            lemma_others_agree(f2, f3, "token"@, keys);
            lemma_others_agree(f3, document.front(), "app_url"@, keys);
        }
        document.render()
    }

    /// Applies a patch, leaving every field it does not name alone. A server
    /// or app URL that is not absolute HTTP, or a topic that is not one path
    /// segment, is refused, and a refusal changes nothing. A blank value
    /// clears its field; a blank server means the public one.
    pub fn apply(&mut self, patch: NtfyPatch) -> (result: Result<(), Error>)
        ensures
            match result {
                Ok(()) => !server_refused(patch) && !topic_refused(patch) && !app_url_refused(patch) && final(self)@
                    == patched(old(self)@, patch),
                Err(e) => final(self)@ == old(self)@ && if server_refused(patch) {
                    e matches Error::NotHttp { setting, url } && setting@ == "server"@ && url@ == server_wanted(
                        patch.server,
                    )->0
                } else if topic_refused(patch) {
                    e matches Error::UnusableTopic { topic } && topic@ == clear_wanted(patch.topic)->0->0
                } else {
                    &&& app_url_refused(patch)
                    &&& e matches Error::NotHttp { setting, url }
                    &&& setting@ == "app_url"@
                    &&& url@ == clear_wanted(patch.app_url)->0->0
                },
            },
            final(self).document() == old(self).document(),
    {
        let ghost p = patch;
        proof {
            lemma_default_server_is_http();
        }
        let server: Option<String> = match &patch.server {
            Some(raw) => {
                let t = trimmed(&chars_of(raw.as_str()));
                if t.len() == 0 {
                    Some("https://ntfy.sh".to_owned())
                } else if url_ok(&t) {
                    Some(string_of(&t))
                } else {
                    return Err(Error::NotHttp { setting: "server".to_owned(), url: string_of(&t) });
                }
            },
            None => None,
        };
        let topic = match clearable(&patch.topic) {
            Some(Some(t)) => {
                if !topic_ok(&chars_of(t.as_str())) {
                    return Err(Error::UnusableTopic { topic: t });
                }
                Some(Some(t))
            },
            other => other,
        };
        let token = clearable(&patch.token);
        let app_url = match clearable(&patch.app_url) {
            Some(Some(u)) => {
                if !url_ok(&chars_of(u.as_str())) {
                    return Err(Error::NotHttp { setting: "app_url".to_owned(), url: u });
                }
                Some(Some(u))
            },
            other => other,
        };
        if let Some(s) = server {
            self.server = s;
        }
        if let Some(t) = topic {
            self.topic = t;
        }
        if let Some(t) = token {
            self.token = t;
        }
        if let Some(u) = app_url {
            self.app_url = u;
        }
        Ok(())
    }

    /// Whether notifications have anywhere to go.
    pub fn is_configured(&self) -> (configured: bool)
        ensures
            configured == (self@.1 is Some),
    {
        self.topic.is_some()
    }

    /// Where a publish is POSTed: the server root.
    pub fn publish_url(&self) -> (url: String)
        ensures
            url@ == strip_trailing(self@.0, '/').push('/'),
    {
        let mut out = stripped(&chars_of(self.server.as_str()), '/');
        out.push('/');
        string_of(&out)
    }

    /// What a phone subscribes to, or `None` when the channel is off.
    pub fn topic_url(&self) -> (url: Option<String>)
        ensures
            match self@.1 {
                Some(t) => url matches Some(u) && u@ == strip_trailing(self@.0, '/').push('/') + t,
                None => url is None,
            },
    {
        match &self.topic {
            Some(t) => {
                let mut out = stripped(&chars_of(self.server.as_str()), '/');
                out.push('/');
                append(&mut out, &chars_of(t.as_str()));
                Some(string_of(&out))
            },
            None => None,
        }
    }

    /// Turns a notification's path into something a phone can open, or
    /// `None` when nobody has said where the app answers.
    pub fn click_for(&self, path: &str) -> (url: Option<String>)
        ensures
            match self@.3 {
                Some(base) => url matches Some(u) && u@ == strip_trailing(base, '/').push('/') + (if path@.len() > 0
                    && path@[0] == '/' {
                    path@.drop_first()
                } else {
                    path@
                }),
                None => url is None,
            },
    {
        match &self.app_url {
            Some(base) => {
                let mut out = stripped(&chars_of(base.as_str()), '/');
                out.push('/');
                let p = chars_of(path);
                if p.len() > 0 && p[0] == '/' {
                    let rest = crate::text::slice(&p, 1, p.len());
                    assert(rest@ =~= p@.drop_first());
                    append(&mut out, &rest);
                } else {
                    append(&mut out, &p);
                }
                Some(string_of(&out))
            },
            None => None,
        }
    }
}

/// Resolves one doubly-optional field, where blank means clear.
fn clearable(given: &Option<Option<String>>) -> (wanted: Option<Option<String>>)
    ensures
        match (wanted, clear_wanted(*given)) {
            (Some(Some(a)), Some(Some(b))) => a@ == b,
            (Some(None), Some(None)) => true,
            (None, None) => true,
            _ => false,
        },
{
    match given {
        Some(Some(raw)) => {
            let t = trimmed(&chars_of(raw.as_str()));
            if t.len() == 0 {
                Some(None)
            } else {
                Some(Some(string_of(&t)))
            }
        },
        Some(None) => Some(None),
        None => None,
    }
}

} // verus!
