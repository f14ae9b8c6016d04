//! The view this library takes of a URL, and the few operations it performs on one.
//!
//! A [`Url`] is opaque to the verifier. What the pagination logic reads from it
//! and writes to it is named here by specification functions, and every access
//! goes through a wrapper whose contract is assumed, not proved.
use reqwest::Url;
use vstd::prelude::*;
use vstd::utf8::encode_utf8;

verus! {

/// A parsed URL, as `reqwest` hands it out. Nothing of its inside is known to
/// the verifier.
#[verifier::external_type_specification]
#[verifier::external_body]
pub struct ExUrl(reqwest::Url);

/// A query parameter: its name and its value, both decoded.
pub type Param = (Seq<char>, Seq<char>);

/// The query parameters that `url` holds, decoded and in the order in which they
/// are written; empty where the URL has no query.
pub uninterp spec fn url_query(url: Url) -> Seq<Param>;

/// The segments of the path of `url`, as they are stored (percent-encoded), or
/// `None` where the path is not a list of segments: that of `data:text/plain,x`.
pub uninterp spec fn url_path(url: Url) -> Option<Seq<Seq<char>>>;

/// The number of bytes of the text of `url`.
pub uninterp spec fn url_len(url: Url) -> nat;

/// The segments that the path of `url` holds once it was emptied and `segments`
/// were written to it one by one.
pub uninterp spec fn written_path(url: Url, segments: Seq<Seq<char>>) -> Seq<Seq<char>>;

/// Whether `c` is an ASCII letter or digit.
pub open spec fn is_alphanumeric(c: char) -> bool {
    ('0' <= c && c <= '9') || ('A' <= c && c <= 'Z') || ('a' <= c && c <= 'z')
}

/// Whether `segment` is not empty and made of ASCII letters and digits alone.
pub open spec fn plain_segment(segment: Seq<char>) -> bool {
    segment.len() > 0 && forall|i: int| 0 <= i < segment.len() ==> is_alphanumeric(#[trigger] segment[i])
}

/// Whether `segments` holds at least one segment, and plain ones alone.
pub open spec fn all_plain(segments: Seq<Seq<char>>) -> bool {
    segments.len() > 0 && forall|i: int|
        0 <= i < segments.len() ==> plain_segment(#[trigger] segments[i])
}

/// The longest text a URL is given here: its parts are addressed by 32-bit offsets.
pub open spec fn max_url_len() -> nat {
    0xffff_ffff
}

/// The number of bytes of `text` in UTF-8.
pub open spec fn byte_len(text: Seq<char>) -> nat {
    encode_utf8(text).len()
}

/// An upper bound on the bytes that one more query parameter adds to a URL:
/// a separator, the `=`, and three bytes for each byte of name and value.
pub open spec fn param_cost(param: Param) -> nat {
    3 * (byte_len(param.0) + byte_len(param.1)) + 3
}

/// An upper bound on the bytes that `params` take in a query.
pub open spec fn query_cost(params: Seq<Param>) -> nat
    decreases params.len(),
{
    if params.len() == 0 {
        0
    } else {
        query_cost(params.drop_last()) + param_cost(params.last())
    }
}

/// An upper bound on the bytes that `segments` take in a path.
pub open spec fn path_cost(segments: Seq<Seq<char>>) -> nat
    decreases segments.len(),
{
    if segments.len() == 0 {
        1
    } else {
        path_cost(segments.drop_last()) + 3 * byte_len(segments.last()) + 2
    }
}

/// Reads the query of a URL with `Url::query_pairs`: the result holds the pairs
/// that the call yields, each name and value copied into a `String`.
#[verifier::external_body]
pub(crate) fn query_pairs(url: &Url) -> (pairs: Vec<(String, String)>)
    ensures
        pairs.deep_view() == url_query(*url),
{
    url.query_pairs().map(|(name, value)| (name.into_owned(), value.into_owned())).collect()
}

/// Reads the path of a URL with `Url::path_segments`: `None` where the call
/// gives `None`, else the segments it yields, each copied into a `String`.
#[verifier::external_body]
pub(crate) fn path_segments(url: &Url) -> (segments: Option<Vec<String>>)
    ensures
        segments.deep_view() == url_path(*url),
{
    url.path_segments().map(|parts| parts.map(|part| part.to_string()).collect())
}

/// Measures a URL with `Url::as_str`: the length of its text in bytes.
#[verifier::external_body]
pub(crate) fn text_len(url: &Url) -> (n: usize)
    ensures
        n == url_len(*url),
{
    url.as_str().len()
}

/// Removes the query with `Url::set_query(None)`. The URL then holds no
/// parameter, its path is as before, and its text has not grown.
#[verifier::external_body]
pub(crate) fn clear_query(url: &mut Url)
    ensures
        url_query(*final(url)) == Seq::<Param>::empty(),
        url_path(*final(url)) == url_path(*old(url)),
        url_len(*final(url)) <= url_len(*old(url)),
{
    url.set_query(None);
}

/// Appends one parameter with `Url::query_pairs_mut` and `append_pair`. The
/// parameter comes last in the query, after those that were there; the path is
/// as before. The call panics on a text that outgrows 32-bit offsets, which
/// the precondition rules out.
#[verifier::external_body]
pub(crate) fn append_query_pair(url: &mut Url, name: &str, value: &str)
    requires
        url_len(*old(url)) + param_cost((name@, value@)) <= max_url_len(),
    ensures
        url_query(*final(url)) == url_query(*old(url)).push((name@, value@)),
        url_path(*final(url)) == url_path(*old(url)),
        url_len(*final(url)) <= url_len(*old(url)) + param_cost((name@, value@)),
{
    url.query_pairs_mut().append_pair(name, value);
}

/// Replaces the path with `Url::path_segments_mut`, `clear` and `extend`, in a
/// URL that has a path of segments. What the path then holds is
/// [`written_path`]: a segment is percent-encoded as it is written, and some,
/// `.` and `..` among them, are not written at all. Segments of ASCII letters
/// and digits are stored as they are given. The query is as before. The call
/// panics on a text that outgrows 32-bit offsets, which the precondition rules
/// out.
#[verifier::external_body]
pub(crate) fn write_path(url: &mut Url, segments: &Vec<String>)
    requires
        url_path(*old(url)) is Some,
        url_len(*old(url)) + path_cost(segments.deep_view()) <= max_url_len(),
    ensures
        url_path(*final(url)) == Some(written_path(*old(url), segments.deep_view())),
        all_plain(segments.deep_view()) ==> url_path(*final(url)) == Some(segments.deep_view()),
        url_query(*final(url)) == url_query(*old(url)),
        url_len(*final(url)) <= url_len(*old(url)) + path_cost(segments.deep_view()),
{
    if let Ok(mut path) = url.path_segments_mut() {
        path.clear().extend(segments);
    }
}

/// Taking one more parameter adds its cost, and only a part of `params` never
/// costs more than the whole.
pub proof fn lemma_query_cost_take(params: Seq<Param>, n: int)
    requires
        0 <= n <= params.len(),
    ensures
        query_cost(params.take(n)) <= query_cost(params),
        n < params.len() ==> query_cost(params.take(n + 1)) == query_cost(params.take(n))
            + param_cost(params[n]),
    decreases params.len() - n,
{
    if n < params.len() {
        assert(params.take(n + 1).drop_last() =~= params.take(n));
        assert(params.take(n + 1).last() == params[n]);
        lemma_query_cost_take(params, n + 1);
    } else {
        assert(params.take(n) =~= params);
    }
}

/// Taking one more segment adds its cost, and only a part of `segments` never
/// costs more than the whole.
pub proof fn lemma_path_cost_take(segments: Seq<Seq<char>>, n: int)
    requires
        0 <= n <= segments.len(),
    ensures
        path_cost(segments.take(n)) <= path_cost(segments),
        n < segments.len() ==> path_cost(segments.take(n + 1)) == path_cost(segments.take(n)) + 3
            * byte_len(segments[n]) + 2,
    decreases segments.len() - n,
{
    if n < segments.len() {
        assert(segments.take(n + 1).drop_last() =~= segments.take(n));
        assert(segments.take(n + 1).last() == segments[n]);
        lemma_path_cost_take(segments, n + 1);
    } else {
        assert(segments.take(n) =~= segments);
    }
}

/// Whether `params` cost no more than `budget` bytes.
pub fn query_cost_within(params: &Vec<(String, String)>, budget: u64) -> (within: bool)
    ensures
        within == (query_cost(params.deep_view()) <= budget),
{
    let ghost all = params.deep_view();
    let mut spent: u64 = 0;
    let mut i: usize = 0;
    while i < params.len()
        invariant
            i <= params.len(),
            all == params.deep_view(),
            spent == query_cost(all.take(i as int)),
            spent <= budget,
        decreases params.len() - i,
    {
        let name_len: usize = params[i].0.as_str().as_bytes().len();
        let value_len: usize = params[i].1.as_str().as_bytes().len();
        proof {
            lemma_query_cost_take(all, i as int);
            lemma_query_cost_take(all, i + 1);
            assert(all[i as int] == (params[i as int].0@, params[i as int].1@));
        }
        let cost: u128 = 3 * (name_len as u128 + value_len as u128) + 3;
        if cost > (budget - spent) as u128 {
            return false;
        }
        spent = spent + cost as u64;
        i += 1;
    }
    proof {
        assert(all.take(i as int) =~= all);
    }
    true
}

/// Whether `segments` cost no more than `budget` bytes.
pub fn path_cost_within(segments: &Vec<String>, budget: u64) -> (within: bool)
    ensures
        within == (path_cost(segments.deep_view()) <= budget),
{
    let ghost all = segments.deep_view();
    if budget < 1 {
        proof {
            lemma_path_cost_take(all, 0);
        }
        return false;
    }
    let mut spent: u64 = 1;
    let mut i: usize = 0;
    while i < segments.len()
        invariant
            i <= segments.len(),
            all == segments.deep_view(),
            spent == path_cost(all.take(i as int)),
            spent <= budget,
        decreases segments.len() - i,
    {
        let len: usize = segments[i].as_str().as_bytes().len();
        proof {
            lemma_path_cost_take(all, i as int);
            lemma_path_cost_take(all, i + 1);
            assert(all[i as int] == segments[i as int]@);
        }
        let cost: u128 = 3 * (len as u128) + 2;
        if cost > (budget - spent) as u128 {
            return false;
        }
        spent = spent + cost as u64;
        i += 1;
    }
    proof {
        assert(all.take(i as int) =~= all);
    }
    true
}

/// Whether `params` can be appended to the query of `url`.
pub open spec fn query_fits(url: Url, params: Seq<Param>) -> bool {
    url_len(url) + query_cost(params) <= max_url_len()
}

/// Whether the path of `url` can be replaced by `segments`.
pub open spec fn path_fits(url: Url, segments: Seq<Seq<char>>) -> bool {
    url_len(url) + path_cost(segments) <= max_url_len()
}

/// Decides [`query_fits`] by measuring the URL and the parameters.
pub fn check_query_fits(url: &Url, params: &Vec<(String, String)>) -> (fits: bool)
    ensures
        fits == query_fits(*url, params.deep_view()),
{
    let len: usize = text_len(url);
    if len as u64 > 0xffff_ffff {
        return false;
    }
    query_cost_within(params, 0xffff_ffff - len as u64)
}

/// Decides [`path_fits`] by measuring the URL and the segments.
pub fn check_path_fits(url: &Url, segments: &Vec<String>) -> (fits: bool)
    ensures
        fits == path_fits(*url, segments.deep_view()),
{
    let len: usize = text_len(url);
    if len as u64 > 0xffff_ffff {
        proof {
            lemma_path_cost_take(segments.deep_view(), 0);
        }
        return false;
    }
    path_cost_within(segments, 0xffff_ffff - len as u64)
}

/// Appends `params` to the query of `url`, in order, after the parameters that
/// are there. The path stays as it is.
pub fn append_query(url: &mut Url, params: &Vec<(String, String)>)
    requires
        query_fits(*old(url), params.deep_view()),
    ensures
        url_query(*final(url)) == url_query(*old(url)) + params.deep_view(),
        url_path(*final(url)) == url_path(*old(url)),
        url_len(*final(url)) <= url_len(*old(url)) + query_cost(params.deep_view()),
{
    let ghost start = *url;
    let ghost all = params.deep_view();
    let mut i: usize = 0;
    proof {
        assert(url_query(*url) =~= url_query(start) + all.take(0));
    }
    while i < params.len()
        invariant
            i <= params.len(),
            all == params.deep_view(),
            url_len(start) + query_cost(all) <= max_url_len(),
            url_query(*url) == url_query(start) + all.take(i as int),
            url_path(*url) == url_path(start),
            url_len(*url) <= url_len(start) + query_cost(all.take(i as int)),
        decreases params.len() - i,
    {
        proof {
            lemma_query_cost_take(all, i as int);
            lemma_query_cost_take(all, i + 1);
            assert(all[i as int] == (params[i as int].0@, params[i as int].1@));
            assert((url_query(start) + all.take(i as int)).push(all[i as int]) =~= url_query(start)
                + all.take(i + 1));
        }
        append_query_pair(url, params[i].0.as_str(), params[i].1.as_str());
        i += 1;
    }
    proof {
        assert(all.take(i as int) =~= all);
    }
}

/// Appends `params` to the query of `url` where they fit, and says whether it
/// did. Where they do not fit the URL is left as it was.
pub fn try_append_query(url: &mut Url, params: &Vec<(String, String)>) -> (done: bool)
    ensures
        done == query_fits(*old(url), params.deep_view()),
        done ==> url_query(*final(url)) == url_query(*old(url)) + params.deep_view(),
        done ==> url_path(*final(url)) == url_path(*old(url)),
        !done ==> *final(url) == *old(url),
{
    if check_query_fits(url, params) {
        append_query(url, params);
        true
    } else {
        false
    }
}

} // verus!
