//! The host of an announce URL.

use vstd::prelude::*;

verus! {

/// The host that the URL written in `text` names, as the `url` crate reads
/// it. There is none where `text` is no URL, and none where the URL it spells
/// has no host.
pub uninterp spec fn url_host(text: Seq<char>) -> Option<Seq<char>>;

/// Parses `text` with `url::Url::parse` and asks the URL for `host_str`.
///
/// Nothing is proved of the parser. The contract only gives its answer the
/// name [`url_host`]: the same text always names the same host, or none.
#[verifier::external_body]
pub(crate) fn parse_host(text: &str) -> (host: Option<String>)
    ensures
        match host {
            Some(h) => url_host(text@) == Some(h@),
            None => url_host(text@) is None,
        },
{
    let url = match url::Url::parse(text) {
        Ok(url) => url,
        Err(_) => return None,
    };
    match url.host_str() {
        Some(host) => Some(host.to_owned()),
        None => None,
    }
}

/// Whether an announce URL with this host, if any, can be used: it must name
/// a host, and not the empty one.
pub open spec fn host_is_usable(host: Option<Seq<char>>) -> bool {
    host matches Some(h) && h.len() > 0
}

/// The host of the announce URL `announce`, where it names one that can be
/// used.
pub fn announce_host(announce: &str) -> (r: Option<String>)
    ensures
        match r {
            Some(h) => url_host(announce@) == Some(h@) && h@.len() > 0,
            None => !host_is_usable(url_host(announce@)),
        },
{
    usable_host(parse_host(announce))
}

/// Keeps a host that is not empty.
pub fn usable_host(host: Option<String>) -> (r: Option<String>)
    ensures
        match r {
            Some(h) => host matches Some(g) && g@ == h@ && h@.len() > 0,
            None => !host_is_usable(
                match host {
                    Some(g) => Some(g@),
                    None => None,
                },
            ),
        },
{
    match host {
        Some(h) => {
            if h.as_str().is_empty() {
                None
            } else {
                Some(h)
            }
        },
        None => None,
    }
}

} // verus!
