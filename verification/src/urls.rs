//! What the `url` crate reads out of a URL.

use vstd::prelude::*;
use vstd::utf8::encode_utf8;
use url::Url;

verus! {

/// Whether `Url::parse` accepts the text.
pub uninterp spec fn url_parses(text: Seq<char>) -> bool;

/// The host that `Url::host_str` gives for the parsed text.
pub uninterp spec fn url_host(text: Seq<char>) -> Option<Seq<char>>;

/// The port that `Url::port` gives for the parsed text.
pub uninterp spec fn url_port(text: Seq<char>) -> Option<u16>;

/// The decoded name and value pairs that `Url::query_pairs` gives for the
/// parsed text, in their order.
pub uninterp spec fn url_query_pairs(text: Seq<char>) -> Seq<(Seq<char>, Seq<char>)>;

/// The text of the URL that `Url::set_query` leaves when the parsed text is
/// given `query` as its query.
pub uninterp spec fn url_with_query(text: Seq<char>, query: Seq<char>) -> Seq<char>;

/// The characters of an optional text.
pub open spec fn text_option_view(t: Option<String>) -> Option<Seq<char>> {
    match t {
        Some(s) => Some(s@),
        None => None,
    }
}

/// Each pair of texts as characters.
pub open spec fn pairs_view(pairs: Seq<(String, String)>) -> Seq<(Seq<char>, Seq<char>)> {
    Seq::new(pairs.len(), |i: int| (pairs[i].0@, pairs[i].1@))
}

/// `Url::parse`, then `Url::host_str` and `Url::port`: the host and the
/// explicit port of a URL, or nothing where the parser refuses the text.
#[verifier::external_body]
pub(crate) fn host_and_port(text: &str) -> (r: Option<(Option<String>, Option<u16>)>)
    ensures
        r is Some <==> url_parses(text@),
        r matches Some((host, port)) ==> text_option_view(host) == url_host(text@) && port
            == url_port(text@),
{
    match Url::parse(text) {
        Ok(parsed) => Some((parsed.host_str().map(str::to_owned), parsed.port())),
        Err(_) => None,
    }
}

/// `Url::parse`, then `Url::query_pairs`: the decoded pairs of the query, or
/// nothing where the parser refuses the text.
#[verifier::external_body]
pub(crate) fn query_pairs(text: &str) -> (r: Option<Vec<(String, String)>>)
    ensures
        r is Some <==> url_parses(text@),
        r matches Some(pairs) ==> pairs_view(pairs@) == url_query_pairs(text@),
{
    match Url::parse(text) {
        Ok(parsed) => Some(parsed.query_pairs().into_owned().collect()),
        Err(_) => None,
    }
}

/// Most bytes of a URL, and of a query, that `with_query` takes (16 MiB).
pub const URL_LIMIT: usize = 0x100_0000;

/// Whether a URL and a query are short enough to be put together.
pub open spec fn joinable(text: Seq<char>, query: Seq<char>) -> bool {
    encode_utf8(text).len() <= URL_LIMIT && encode_utf8(query).len() <= URL_LIMIT
}

/// `Url::parse`, then `Url::set_query`: the URL with its query replaced, as
/// text, or nothing where the parser refuses the text. `set_query` panics
/// where the URL that it writes has a part that starts past 2^32 bytes; the
/// parser and the encoding of the query make a text longer by a small factor
/// at most, so the bound on both keeps far below that.
#[verifier::external_body]
pub(crate) fn with_query(text: &str, query: &str) -> (r: Option<String>)
    requires
        joinable(text@, query@),
    ensures
        r is Some <==> url_parses(text@),
        r matches Some(full) ==> full@ == url_with_query(text@, query@),
{
    match Url::parse(text) {
        Ok(mut parsed) => {
            parsed.set_query(Some(query));
            Some(String::from(parsed))
        },
        Err(_) => None,
    }
}

} // verus!
