//! Reading a share link `hydra://host:port?bandwidth=..&latency=..&...`,
//! plain or Base64 encoded: the scheme, host and port it must have, the
//! metric values it carries (as text, in query order), and the status.
use vstd::prelude::*;
use vstd::string::StringExecFns;
use crate::session::NodeStatus;
use crate::share_link::{
    status_from_text, status_of_text, text_equals, link_lines, is_share_link, text_link_lines,
    link_scheme_prefix,
};

verus! {

broadcast use vstd::string::group_string_axioms;

/// What a parsed URL reports: its scheme, host, port and decoded query
/// pairs in order.
pub struct UrlParts {
    pub scheme: String,
    pub host: Option<String>,
    pub port: Option<u16>,
    pub query: Vec<(String, String)>,
}

/// A parsed URL as a mathematical value.
pub struct UrlPartsView {
    pub scheme: Seq<char>,
    pub host: Option<Seq<char>>,
    pub port: Option<u16>,
    pub query: Seq<(Seq<char>, Seq<char>)>,
}

pub open spec fn option_text(o: Option<String>) -> Option<Seq<char>> {
    match o {
        Some(s) => Some(s@),
        None => None,
    }
}

pub open spec fn pairs_view(v: Seq<(String, String)>) -> Seq<(Seq<char>, Seq<char>)> {
    v.map_values(|p: (String, String)| (p.0@, p.1@))
}

impl View for UrlParts {
    type V = UrlPartsView;

    open spec fn view(&self) -> UrlPartsView {
        UrlPartsView {
            scheme: self.scheme@,
            host: option_text(self.host),
            port: self.port,
            query: pairs_view(self.query@),
        }
    }
}

/// What `url::Url::parse` makes of a text: its parts, or `None` when the
/// text is not a URL.
pub uninterp spec fn url_parse(text: Seq<char>) -> Option<UrlPartsView>;

/// The bytes `base64`'s standard engine decodes a text to, or `None` when it
/// is not Base64.
pub uninterp spec fn base64_decoded(text: Seq<char>) -> Option<Seq<u8>>;

/// The text that bytes are in UTF-8, or `None` when they are not UTF-8.
pub uninterp spec fn utf8_decoded(bytes: Seq<u8>) -> Option<Seq<char>>;

pub open spec fn option_parts(o: Option<UrlParts>) -> Option<UrlPartsView> {
    match o {
        Some(p) => Some(p@),
        None => None,
    }
}

/// `url::Url::parse`, then its `scheme`, `host_str`, `port` and
/// `query_pairs`: the parts it reports, or `None` when parsing fails.
#[verifier::external_body]
fn parse_url(text: &str) -> (r: Option<UrlParts>)
    ensures
        option_parts(r) == url_parse(text@),
{
    match url::Url::parse(text) {
        Ok(u) => Some(UrlParts {
            scheme: u.scheme().to_string(),
            host: u.host_str().map(|h| h.to_string()),
            port: u.port(),
            query: u.query_pairs().map(|(k, v)| (k.into_owned(), v.into_owned())).collect(),
        }),
        Err(_) => None,
    }
}

/// `Engine::decode` of `base64::engine::general_purpose::STANDARD`: the
/// decoded bytes, or `None` when the text is not Base64.
#[verifier::external_body]
fn base64_decode(text: &str) -> (r: Option<Vec<u8>>)
    ensures
        (match r {
            Some(v) => Some(v@),
            None => None,
        }) == base64_decoded(text@),
{
    match base64::Engine::decode(&base64::engine::general_purpose::STANDARD, text) {
        Ok(v) => Some(v),
        Err(_) => None,
    }
}

/// `String::from_utf8`: the text, or `None` when the bytes are not UTF-8.
#[verifier::external_body]
fn utf8_string(bytes: Vec<u8>) -> (r: Option<String>)
    ensures
        option_text(r) == utf8_decoded(bytes@),
{
    match String::from_utf8(bytes) {
        Ok(s) => Some(s),
        Err(_) => None,
    }
}

/// A metric a share link may carry.
#[derive(Debug, Clone, Copy, PartialEq, Eq, Structural)]
pub enum MetricKey {
    Bandwidth,
    Latency,
    LossRate,
    Load,
}

/// Why a share link could not be read.
#[derive(Debug, Clone, Copy, PartialEq, Eq, Structural)]
pub enum ShareLinkError {
    /// Not a URL.
    InvalidUrl,
    /// The scheme is not `hydra`.
    InvalidScheme,
    /// No host.
    MissingHost,
    /// No port.
    MissingPort,
    /// Not Base64.
    InvalidBase64,
    /// The decoded bytes are not UTF-8.
    InvalidUtf8,
}

/// A share link as read: the host, the port, the metric values as written
/// (known keys only, in query order), and the status.
#[derive(Debug, Clone)]
pub struct ShareUrl {
    pub address: String,
    pub port: u16,
    pub metric_texts: Vec<(MetricKey, String)>,
    pub status: NodeStatus,
}

/// A share link as a mathematical value.
pub struct ShareUrlView {
    pub address: Seq<char>,
    pub port: u16,
    pub metric_texts: Seq<(MetricKey, Seq<char>)>,
    pub status: NodeStatus,
}

impl View for ShareUrl {
    type V = ShareUrlView;

    open spec fn view(&self) -> ShareUrlView {
        ShareUrlView {
            address: self.address@,
            port: self.port,
            metric_texts: self.metric_texts@.map_values(|p: (MetricKey, String)| (p.0, p.1@)),
            status: self.status,
        }
    }
}

/// The metric a query key names, if any.
pub open spec fn metric_key(k: Seq<char>) -> Option<MetricKey> {
    if k == "bandwidth"@ {
        Some(MetricKey::Bandwidth)
    } else if k == "latency"@ {
        Some(MetricKey::Latency)
    } else if k == "loss_rate"@ {
        Some(MetricKey::LossRate)
    } else if k == "load"@ {
        Some(MetricKey::Load)
    } else {
        None
    }
}

/// The metric values of a query, in order; other keys are skipped.
pub open spec fn metric_texts_of(query: Seq<(Seq<char>, Seq<char>)>) -> Seq<(MetricKey, Seq<char>)>
    decreases query.len(),
{
    if query.len() == 0 {
        Seq::empty()
    } else {
        let r = metric_texts_of(query.drop_last());
        match metric_key(query.last().0) {
            Some(k) => r.push((k, query.last().1)),
            None => r,
        }
    }
}

/// The status the last `status` pair of a query gives (unknown words read
/// as online), online when there is none.
pub open spec fn status_of_query(query: Seq<(Seq<char>, Seq<char>)>) -> NodeStatus
    decreases query.len(),
{
    if query.len() == 0 {
        NodeStatus::Online
    } else if query.last().0 == "status"@ {
        status_of_text(query.last().1)
    } else {
        status_of_query(query.drop_last())
    }
}

/// What a share link's parsed URL gives.
pub open spec fn share_url_outcome(parts: Option<UrlPartsView>) -> Result<ShareUrlView, ShareLinkError> {
    match parts {
        None => Err(ShareLinkError::InvalidUrl),
        Some(p) => if p.scheme != "hydra"@ {
            Err(ShareLinkError::InvalidScheme)
        } else {
            match p.host {
                None => Err(ShareLinkError::MissingHost),
                Some(h) => match p.port {
                    None => Err(ShareLinkError::MissingPort),
                    Some(port) => Ok(
                        ShareUrlView {
                            address: h,
                            port,
                            metric_texts: metric_texts_of(p.query),
                            status: status_of_query(p.query),
                        },
                    ),
                },
            }
        },
    }
}

/// What a Base64-encoded share link gives.
pub open spec fn share_base64_outcome(encoded: Seq<char>) -> Result<ShareUrlView, ShareLinkError> {
    match base64_decoded(encoded) {
        None => Err(ShareLinkError::InvalidBase64),
        Some(bytes) => match utf8_decoded(bytes) {
            None => Err(ShareLinkError::InvalidUtf8),
            Some(text) => share_url_outcome(url_parse(text)),
        },
    }
}

/// Whether `r` is `outcome`, the link taken by its view.
pub open spec fn share_result_is(r: Result<ShareUrl, ShareLinkError>, outcome: Result<ShareUrlView, ShareLinkError>) -> bool {
    match r {
        Ok(u) => outcome == Ok::<ShareUrlView, ShareLinkError>(u@),
        Err(e) => outcome == Err::<ShareUrlView, ShareLinkError>(e),
    }
}

fn metric_key_of(k: &str) -> (m: Option<MetricKey>)
    ensures
        m == metric_key(k@),
{
    if text_equals(k, "bandwidth") {
        Some(MetricKey::Bandwidth)
    } else if text_equals(k, "latency") {
        Some(MetricKey::Latency)
    } else if text_equals(k, "loss_rate") {
        Some(MetricKey::LossRate)
    } else if text_equals(k, "load") {
        Some(MetricKey::Load)
    } else {
        None
    }
}

/// Reads a share link from the parts of its URL.
pub fn share_url_from_parts(parts: Option<UrlParts>) -> (r: Result<ShareUrl, ShareLinkError>)
    ensures
        share_result_is(r, share_url_outcome(option_parts(parts))),
{
    let p = match parts {
        None => return Err(ShareLinkError::InvalidUrl),
        Some(p) => p,
    };
    if !text_equals(p.scheme.as_str(), "hydra") {
        return Err(ShareLinkError::InvalidScheme);
    }
    let address = match p.host {
        None => return Err(ShareLinkError::MissingHost),
        Some(h) => h,
    };
    let port = match p.port {
        None => return Err(ShareLinkError::MissingPort),
        Some(port) => port,
    };
    let ghost q = pairs_view(p.query@);
    let mut metric_texts: Vec<(MetricKey, String)> = Vec::new();
    let mut status = NodeStatus::Online;
    let mut i: usize = 0;
    while i < p.query.len()
        invariant
            i <= p.query@.len(),
            q == pairs_view(p.query@),
            metric_texts@.map_values(|x: (MetricKey, String)| (x.0, x.1@)) == metric_texts_of(q.take(i as int)),
            status == status_of_query(q.take(i as int)),
        decreases p.query@.len() - i,
    {
        let key = p.query[i].0.as_str();
        let value = p.query[i].1.as_str();
        proof {
            assert(q.take(i + 1).drop_last() =~= q.take(i as int));
            assert(q.take(i + 1).last() == (key@, value@));
        }
        let ghost before = metric_texts@;
        match metric_key_of(key) {
            Some(k) => {
                metric_texts.push((k, p.query[i].1.clone()));
                assert(metric_texts@.map_values(|x: (MetricKey, String)| (x.0, x.1@)) =~= before.map_values(
                    |x: (MetricKey, String)| (x.0, x.1@),
                ).push((k, value@)));
            },
            None => {},
        }
        if text_equals(key, "status") {
            status = status_from_text(value);
        }
        i = i + 1;
    }
    proof {
        assert(q.take(q.len() as int) =~= q);
    }
    Ok(ShareUrl { address, port, metric_texts, status })
}

/// Reads a share link `hydra://host:port?key=value&...`: the scheme must be
/// `hydra` and host and port present; metric values are kept as written,
/// other keys skipped, and the last `status` gives the status (online when
/// absent or unknown).
pub fn parse_share_url(url: &str) -> (r: Result<ShareUrl, ShareLinkError>)
    ensures
        share_result_is(r, share_url_outcome(url_parse(url@))),
{
    share_url_from_parts(parse_url(url))
}

/// Reads a Base64-encoded share link.
pub fn share_url_from_base64(encoded: &str) -> (r: Result<ShareUrl, ShareLinkError>)
    ensures
        share_result_is(r, share_base64_outcome(encoded@)),
{
    let bytes = match base64_decode(encoded) {
        None => return Err(ShareLinkError::InvalidBase64),
        Some(b) => b,
    };
    let text = match utf8_string(bytes) {
        None => return Err(ShareLinkError::InvalidUtf8),
        Some(t) => t,
    };
    parse_share_url(text.as_str())
}

/// Whether a line starts with the share-link scheme.
pub open spec fn has_link_prefix(line: Seq<char>) -> bool {
    line.len() >= 8 && line.subrange(0, 8) == link_scheme_prefix()
}

/// What each share link among `lines` gives, in order; lines that do not
/// start with the scheme are skipped.
pub open spec fn share_lines_of(lines: Seq<Seq<char>>) -> Seq<Result<ShareUrlView, ShareLinkError>>
    decreases lines.len(),
{
    if lines.len() == 0 {
        Seq::empty()
    } else {
        let r = share_lines_of(lines.drop_last());
        if has_link_prefix(lines.last()) {
            r.push(share_url_outcome(url_parse(lines.last())))
        } else {
            r
        }
    }
}

/// Reads the share links of a text, one per line: blank lines, comment
/// lines (`#`) and lines that are not `hydra://` links are skipped, and each
/// link gives what `parse_share_url` gives for it, in order.
pub fn share_lines(text: &str) -> (r: Vec<Result<ShareUrl, ShareLinkError>>)
    ensures
        r@.len() == share_lines_of(text_link_lines(text@)).len(),
        forall|i: int| 0 <= i < r@.len() ==> share_result_is(#[trigger] r@[i], share_lines_of(text_link_lines(text@))[i]),
{
    let lines = link_lines(text);
    let ghost ls = text_link_lines(text@);
    assert(lines@.map_values(|s: String| s@) =~= ls);
    let mut r: Vec<Result<ShareUrl, ShareLinkError>> = Vec::new();
    let mut i: usize = 0;
    while i < lines.len()
        invariant
            i <= lines@.len(),
            ls == lines@.map_values(|s: String| s@),
            r@.len() == share_lines_of(ls.take(i as int)).len(),
            forall|j: int| 0 <= j < r@.len() ==> share_result_is(#[trigger] r@[j], share_lines_of(ls.take(i as int))[j]),
        decreases lines@.len() - i,
    {
        let line = lines[i].as_str();
        proof {
            assert(ls.take(i + 1).drop_last() =~= ls.take(i as int));
            assert(ls.take(i + 1).last() == line@);
        }
        if is_share_link(line) {
            let ghost before = r@;
            r.push(parse_share_url(line));
            assert forall|j: int| 0 <= j < r@.len() implies share_result_is(#[trigger] r@[j], share_lines_of(ls.take(i + 1))[j]) by {
                if j < before.len() {
                    assert(r@[j] == before[j]);
                }
            }
        }
        i = i + 1;
    }
    proof {
        assert(ls.take(ls.len() as int) =~= ls);
    }
    r
}

} // verus!
