//! What a request is made of, apart from the transport that sends it: the data
//! it carries, the URL it goes to, and the credentials that are added to it.
use crate::urls::{query_fits, try_append_query, url_path, url_query, Param};
use reqwest::Url;
use vstd::prelude::*;
use vstd::string::StringExecFns;

verus! {

/// Additional data to be sent along with a request.
#[derive(Debug)]
pub enum RequestData<T> {
    /// No additional data: no body, and nothing added to the query.
    Empty,
    /// HTTP form data.
    Form(T),
    /// JSON data.
    Json(T),
    /// Query data.
    Query(T),
}

impl<T> Default for RequestData<T> {
    fn default() -> (data: RequestData<T>)
        ensures
            data == RequestData::<T>::Empty,
    {
        RequestData::Empty
    }
}

/// The response of a server whose answer carries nothing to read.
#[derive(Debug)]
pub struct EmptyResponse;

impl EmptyResponse {
    /// Accepts any body, an empty one too, and discards it.
    pub fn from_body(body: &str) -> (response: EmptyResponse)
        ensures
            response == EmptyResponse,
    {
        EmptyResponse
    }
}

/// The number of slashes with which `text` begins.
pub open spec fn slashes_at_start(text: Seq<char>) -> nat
    decreases text.len(),
{
    if text.len() > 0 && text.first() == '/' {
        1 + slashes_at_start(text.drop_first())
    } else {
        0
    }
}

/// The number of slashes with which `text` ends.
pub open spec fn slashes_at_end(text: Seq<char>) -> nat
    decreases text.len(),
{
    if text.len() > 0 && text.last() == '/' {
        1 + slashes_at_end(text.drop_last())
    } else {
        0
    }
}

/// `text` without the slashes at its start and at its end.
pub open spec fn trimmed(text: Seq<char>) -> Seq<char> {
    if slashes_at_start(text) == text.len() {
        Seq::empty()
    } else {
        text.subrange(slashes_at_start(text) as int, text.len() - slashes_at_end(text))
    }
}

/// The URL of an endpoint below a base URL: the base, a slash, and the
/// endpoint without the slashes around it.
pub open spec fn endpoint_url_of(base_url: Seq<char>, endpoint: Seq<char>) -> Seq<char> {
    base_url + seq!['/'] + trimmed(endpoint)
}

/// A text that begins with `count` slashes and then holds another character
/// has exactly `count` slashes at its start.
proof fn lemma_slashes_at_start(text: Seq<char>, count: int)
    requires
        0 <= count <= text.len(),
        forall|i: int| 0 <= i < count ==> text[i] == '/',
        count < text.len() ==> text[count] != '/',
    ensures
        slashes_at_start(text) == count,
    decreases text.len(),
{
    if count > 0 {
        let rest = text.drop_first();
        assert forall|i: int| 0 <= i < count - 1 implies rest[i] == '/' by {
            assert(rest[i] == text[i + 1]);
        }
        if count < text.len() {
            assert(rest[count - 1] == text[count]);
        }
        lemma_slashes_at_start(rest, count - 1);
    }
}

/// A text that ends with `count` slashes after another character has exactly
/// `count` slashes at its end.
proof fn lemma_slashes_at_end(text: Seq<char>, count: int)
    requires
        0 <= count <= text.len(),
        forall|i: int| text.len() - count <= i < text.len() ==> text[i] == '/',
        count < text.len() ==> text[text.len() - count - 1] != '/',
    ensures
        slashes_at_end(text) == count,
    decreases text.len(),
{
    if count > 0 {
        let rest = text.drop_last();
        assert forall|i: int| rest.len() - (count - 1) <= i < rest.len() implies rest[i]
            == '/' by {
            assert(rest[i] == text[i]);
        }
        if count < text.len() {
            assert(rest[rest.len() - (count - 1) - 1] == text[text.len() - count - 1]);
        }
        lemma_slashes_at_end(rest, count - 1);
    }
}

/// Removes the slashes at the start and at the end of `text`.
pub fn trim_slashes(text: &str) -> (inner: &str)
    ensures
        inner@ == trimmed(text@),
{
    // The length bounds the positions that the loop counts.
    let len: usize = text.unicode_len();
    let mut first: Option<usize> = None;
    let mut last: usize = 0;
    let mut at: usize = 0;
    for c in it: text.chars()
        invariant
            it.seq() == text@,
            at == it.index(),
            len == text@.len(),
            match first {
                Some(start) => {
                    &&& start <= last < at
                    &&& text@[start as int] != '/'
                    &&& text@[last as int] != '/'
                    &&& forall|i: int| 0 <= i < start ==> text@[i] == '/'
                    &&& forall|i: int| last < i < at ==> text@[i] == '/'
                },
                None => forall|i: int| 0 <= i < at ==> text@[i] == '/',
            },
    {
        if c != '/' {
            if first.is_none() {
                first = Some(at);
            }
            last = at;
        }
        at += 1;
    }
    match first {
        Some(start) => {
            proof {
                lemma_slashes_at_start(text@, start as int);
                lemma_slashes_at_end(text@, text@.len() - last - 1);
            }
            text.substring_char(start, last + 1)
        },
        None => {
            proof {
                lemma_slashes_at_start(text@, text@.len() as int);
            }
            text.substring_char(0, 0)
        },
    }
}

/// Joins a base URL and an endpoint: the slashes around the endpoint are
/// dropped, and one slash is put between the two.
pub fn endpoint_url(base_url: &str, endpoint: &str) -> (url: String)
    ensures
        url@ == endpoint_url_of(base_url@, endpoint@),
{
    let mut url = base_url.to_owned();
    proof {
        reveal_strlit("/");
        assert("/"@ =~= seq!['/']);
    }
    url.append("/");
    url.append(trim_slashes(endpoint));
    url
}

/// The credentials that a client adds to each of its requests. A client has
/// at most one of them.
#[derive(Debug, Clone)]
pub enum Authorization {
    /// A bearer token.
    Bearer(String),
    /// A user name and, if there is one, a password.
    Basic(String, Option<String>),
    /// Parameters that are added to the query.
    Query(Vec<(String, String)>),
    /// Headers that are added to the request: name and value.
    Header(Vec<(String, String)>),
}

impl Authorization {
    /// The parameters that the credentials add to the query of a URL.
    pub open spec fn query_params(&self) -> Seq<Param> {
        match self {
            Authorization::Query(pairs) => pairs.deep_view(),
            _ => Seq::empty(),
        }
    }

    /// Adds the credentials to a URL, where they belong to the URL, and says
    /// whether they fit. This comes after the page has been written into the
    /// URL: the parameters are put behind all that the query holds, and
    /// nothing of the query is overwritten. Credentials that do not go into
    /// the URL leave it as it is; so do those that do not fit.
    pub fn authorize_url(&self, url: &mut Url) -> (done: bool)
        ensures
            done == (self is Query ==> query_fits(*old(url), self.query_params())),
            done ==> url_query(*final(url)) == url_query(*old(url)) + self.query_params(),
            done ==> url_path(*final(url)) == url_path(*old(url)),
            !done || !(self is Query) ==> *final(url) == *old(url),
    {
        match self {
            Authorization::Query(pairs) => try_append_query(url, pairs),
            _ => {
                proof {
                    assert(url_query(*url) + Seq::<Param>::empty() =~= url_query(*url));
                }
                true
            },
        }
    }
}

} // verus!
