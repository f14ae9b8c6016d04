//! Walking a paged resource: the state of a traversal, the strategy that
//! decides where it goes next, and the change that a page makes to a request.
pub mod path;
pub mod query;

use crate::error::RequestError;
use crate::request::Authorization;
use crate::urls::{query_fits, url_path, url_query};
use reqwest::Url;
use vstd::prelude::*;

verus! {

/// Where a traversal of a paged resource stands.
#[derive(Debug, Clone)]
pub enum State<T> {
    /// Before the first request. `Some` holds the page that the caller asked
    /// to start from; with `None` the first request goes out as it is.
    Start(Option<T>),
    /// Mid-traversal, with the page that the next request asks for.
    Next(T),
    /// The last page has been reached: no request follows.
    End,
}

impl<T> Default for State<T> {
    fn default() -> (state: State<T>)
        ensures
            state == State::<T>::Start(None),
    {
        State::Start(None)
    }
}

impl<T> State<T> {
    /// Whether the traversal is over.
    pub fn is_end(&self) -> (end: bool)
        ensures
            end == (*self is End),
    {
        match self {
            State::End => true,
            _ => false,
        }
    }

    /// The state that follows a response on which a policy decided `page`: the
    /// traversal goes on with the page, and ends where there is none.
    pub fn following(page: Option<T>) -> (state: State<T>)
        ensures
            state == match page {
                Some(page) => State::Next(page),
                None => State::<T>::End,
            },
    {
        match page {
            Some(page) => State::Next(page),
            None => State::End,
        }
    }

    /// The page that the state holds: the one that the next request asks for.
    pub open spec fn page_of(&self) -> Option<&T> {
        match self {
            State::Start(Some(page)) => Some(page),
            State::Start(None) => None,
            State::Next(page) => Some(page),
            State::End => None,
        }
    }

    /// The page that the next request asks for. `None` before the first
    /// request of a traversal without a chosen start, and at the end.
    #[verifier::when_used_as_spec(page_of)]
    pub fn page(&self) -> (page: Option<&T>)
        ensures
            page == self.page_of(),
    {
        match self {
            State::Start(Some(page)) => Some(page),
            State::Start(None) => None,
            State::Next(page) => Some(page),
            State::End => None,
        }
    }
}

/// A change that a page makes to the URL of a request.
pub trait RequestModifier {
    /// Whether the change can be written into `url`: a URL has a longest text.
    spec fn fits(&self, url: Url) -> bool;

    /// What holds of the URL before and after the change, and of the result.
    spec fn modified(&self, before: Url, after: Url, result: Result<(), RequestError>) -> bool;

    /// Decides [`RequestModifier::fits`].
    fn check_fits(&self, url: &Url) -> (fits: bool)
        ensures
            fits == self.fits(*url),
    ;

    /// Writes the page into `url`.
    fn modify_request(&self, url: &mut Url) -> (result: Result<(), RequestError>)
        requires
            self.fits(*old(url)),
        ensures
            self.modified(*old(url), *final(url), result),
    ;
}

/// Writes a page into `url` where it fits. `None` says that it does not fit;
/// the URL is then left as it was.
pub fn try_modify<M: RequestModifier>(modifier: &M, url: &mut Url) -> (outcome: Option<
    Result<(), RequestError>,
>)
    ensures
        outcome is Some == modifier.fits(*old(url)),
        outcome matches Some(result) ==> modifier.modified(*old(url), *final(url), result),
        outcome is None ==> *final(url) == *old(url),
{
    if modifier.check_fits(url) {
        Some(modifier.modify_request(url))
    } else {
        None
    }
}

/// Whether `after` is `before` with the page of `modifier` written into it:
/// the page fits and the change succeeds, or there is no page and nothing is
/// changed.
pub open spec fn page_written<M: RequestModifier>(
    modifier: Option<&M>,
    before: Url,
    after: Url,
) -> bool {
    match modifier {
        Some(modifier) => modifier.fits(before) && modifier.modified(before, after, Ok(())),
        None => after == before,
    }
}

/// Whether the credentials `auth` can be added to `url`.
pub open spec fn credentials_fit(auth: Option<&Authorization>, url: Url) -> bool {
    match auth {
        Some(auth) => auth is Query ==> query_fits(url, auth.query_params()),
        None => true,
    }
}

/// Whether `after` is `before` with the credentials `auth` added to it: what
/// they add to the query comes behind all that the query held, and the path
/// is as it was.
pub open spec fn credentials_added(auth: Option<&Authorization>, before: Url, after: Url) -> bool {
    match auth {
        Some(auth) => {
            &&& url_query(after) == url_query(before) + auth.query_params()
            &&& url_path(after) == url_path(before)
            &&& !(auth is Query) ==> after == before
        },
        None => after == before,
    }
}

/// Makes the URL of a base request the URL of the request that goes out:
/// first the page is written into it, if there is one, then the credentials
/// are added, if there are any. So the page never overwrites the credentials.
/// The result is that of writing the page; `None` says that the page or the
/// credentials do not fit the URL.
pub fn prepare<M: RequestModifier>(
    url: &mut Url,
    modifier: Option<&M>,
    auth: Option<&Authorization>,
) -> (outcome: Option<Result<(), RequestError>>)
    ensures
        match outcome {
            Some(Ok(())) => exists|paged: Url|
                {
                    &&& #[trigger] page_written(modifier, *old(url), paged)
                    &&& credentials_fit(auth, paged)
                    &&& credentials_added(auth, paged, *final(url))
                },
            Some(Err(error)) => {
                &&& modifier matches Some(modifier)
                &&& modifier.fits(*old(url))
                &&& modifier.modified(*old(url), *final(url), Err(error))
            },
            None => {
                ||| modifier matches Some(modifier) && !modifier.fits(*old(url)) && *final(url)
                    == *old(url)
                ||| page_written(modifier, *old(url), *final(url)) && !credentials_fit(
                    auth,
                    *final(url),
                )
            },
        },
{
    if let Some(change) = modifier {
        match try_modify(change, url) {
            Some(Ok(done)) => {
                assert(done == ());
            },
            Some(Err(error)) => {
                return Some(Err(error));
            },
            None => {
                return None;
            },
        }
    }
    let ghost paged = *url;
    if let Some(credentials) = auth {
        if !credentials.authorize_url(url) {
            return None;
        }
    }
    assert(page_written(modifier, *old(url), paged));
    Some(Ok(()))
}

/// A strategy that walks a paged resource: it turns a page into the change
/// that the page makes to a request, and decides from a response where the
/// traversal goes next. `T` is the response, `U` the page.
pub trait Paginator<T, U> {
    /// The change that a page makes to a request.
    type Modifier: RequestModifier;

    /// What holds of the modifier that is made for the page `data`.
    spec fn makes(&self, data: U, modifier: Self::Modifier) -> bool;

    /// Whether the strategy can be asked about `res`, fetched with `prev`.
    spec fn accepts(&self, prev: Option<&U>, res: &T) -> bool;

    /// Whether the strategy may answer `state` when asked about `res`,
    /// fetched with `prev`.
    spec fn allows(&self, prev: Option<&U>, res: &T, state: State<U>) -> bool;

    /// The modifier that writes the page `data` into a request.
    fn modifier(&self, data: U) -> (modifier: Self::Modifier)
        ensures
            self.makes(data, modifier),
    ;

    /// The state that follows the response `res`, fetched with the page
    /// `prev`.
    fn next(&self, prev: Option<&U>, res: &T) -> (state: State<U>)
        requires
            self.accepts(prev, res),
        ensures
            self.allows(prev, res, state),
    ;
}

/// What the driver of a traversal does when it is asked for the next item.
#[derive(Debug)]
pub enum Step<'a, U> {
    /// Nothing: the traversal is over, and no request goes out.
    Finish,
    /// Send one request, changed by the page if there is one.
    Fetch(Option<&'a U>),
}

/// What one request of a traversal ended in.
pub enum Event<U> {
    /// No response that counts as a success.
    Failed,
    /// A response, on which the paginator answered with this state.
    Page(State<U>),
}

/// The state that follows `state` once a request ended in `event`: a failure
/// ends the traversal, a response moves it where the paginator said. Nothing
/// leads away from the end.
pub open spec fn after<U>(state: State<U>, event: Event<U>) -> State<U> {
    match (state, event) {
        (State::End, _) => State::End,
        (_, Event::Failed) => State::End,
        (_, Event::Page(next)) => next,
    }
}

/// What is to be done in `state`.
pub open spec fn planned<U>(state: &State<U>) -> Step<'_, U> {
    if *state is End {
        Step::Finish
    } else {
        Step::Fetch(state.page_of())
    }
}

/// Decides what to do in `state`: at the end nothing, anywhere else one
/// request, for the page that the state holds.
pub fn plan<U>(state: &State<U>) -> (step: Step<'_, U>)
    ensures
        step == planned(state),
{
    match state {
        State::End => Step::Finish,
        _ => Step::Fetch(state.page()),
    }
}

/// Moves a traversal on once the request that [`plan`] asked for has ended.
/// A failure ends the traversal; on a response the paginator is asked, with
/// the page that fetched the response, and decides. A traversal that is at its
/// end stays there, and the paginator is not asked.
pub fn advance<T, U, P: Paginator<T, U>>(
    paginator: &P,
    state: &State<U>,
    outcome: &Result<T, RequestError>,
) -> (next: State<U>)
    requires
        !(*state is End) ==> (outcome matches Ok(res) ==> paginator.accepts(state.page(), &res)),
    ensures
        *state is End || outcome is Err ==> next == State::<U>::End,
        !(*state is End) ==> (outcome matches Ok(res) ==> paginator.allows(
            state.page(),
            &res,
            next,
        )),
        next == after(
            *state,
            match outcome {
                Ok(_) => Event::Page(next),
                Err(_) => Event::Failed,
            },
        ),
{
    match (state, outcome) {
        (State::End, _) => State::End,
        (_, Ok(res)) => paginator.next(state.page(), res),
        (_, Err(_)) => State::End,
    }
}

/// Whether a request that ended in `event` was the last of its traversal: it
/// failed, or the paginator answered that no page follows.
pub open spec fn ends<U>(event: Event<U>) -> bool {
    event matches Event::Page(next) ==> next is End
}

/// The events that a traversal from `state` takes up when its requests end in
/// `events`, one after the other. The driver asks [`planned`] what to do, sends
/// a request where it is told to, yields what the request ended in, and moves
/// to the state [`after`] it: one event, and so one item, for each request
/// that goes out.
pub open spec fn consumed<U>(state: State<U>, events: Seq<Event<U>>) -> Seq<Event<U>>
    decreases events.len(),
{
    if planned(&state) is Finish || events.len() == 0 {
        Seq::empty()
    } else {
        seq![events.first()] + consumed(after(state, events.first()), events.drop_first())
    }
}

/// The state in which a traversal from `state` stands once its requests ended
/// in `events`, as far as it took them up.
pub open spec fn settled<U>(state: State<U>, events: Seq<Event<U>>) -> State<U>
    decreases events.len(),
{
    if planned(&state) is Finish || events.len() == 0 {
        state
    } else {
        settled(after(state, events.first()), events.drop_first())
    }
}

/// A traversal at its end stays there: asked again, it sends no request and
/// yields no item, whatever would have come back.
pub proof fn lemma_end_is_final<U>(events: Seq<Event<U>>)
    ensures
        planned(&State::<U>::End) is Finish,
        consumed(State::<U>::End, events) == Seq::<Event<U>>::empty(),
        settled(State::<U>::End, events) == State::<U>::End,
{
}

/// A traversal never takes up more events than requests ended, and what it
/// takes up is the beginning of them.
pub proof fn lemma_consumed_is_prefix<U>(state: State<U>, events: Seq<Event<U>>)
    ensures
        consumed(state, events).len() <= events.len(),
        consumed(state, events) == events.take(consumed(state, events).len() as int),
    decreases events.len(),
{
    if state is End || events.len() == 0 {
        assert(events.take(0) =~= Seq::<Event<U>>::empty());
    } else {
        let rest = events.drop_first();
        let next = after(state, events.first());
        lemma_consumed_is_prefix(next, rest);
        let n = consumed(next, rest).len() as int;
        assert(seq![events.first()] + rest.take(n) =~= events.take(n + 1));
    }
}

/// A traversal that has not ended sends exactly one request for each event
/// up to the first that ends it, that one included: `last` requests leave it
/// running, and request `last + 1`, a failure or the response on which the
/// paginator says that no page follows, is the final item. After it the
/// traversal is at its end.
pub proof fn lemma_stops_at_first_end<U>(state: State<U>, events: Seq<Event<U>>, last: int)
    requires
        !(state is End),
        0 <= last < events.len(),
        forall|i: int| 0 <= i < last ==> !ends(#[trigger] events[i]),
        ends(events[last]),
    ensures
        consumed(state, events) == events.take(last + 1),
        consumed(state, events).len() == last + 1,
        settled(state, events) == State::<U>::End,
    decreases events.len(),
{
    let rest = events.drop_first();
    let next = after(state, events.first());
    if last == 0 {
        lemma_end_is_final(rest);
        assert(events.take(1) =~= seq![events.first()] + Seq::<Event<U>>::empty());
    } else {
        assert(!ends(events[0]));
        assert forall|i: int| 0 <= i < last - 1 implies !ends(#[trigger] rest[i]) by {
            assert(rest[i] == events[i + 1]);
        }
        assert(rest[last - 1] == events[last]);
        lemma_stops_at_first_end(next, rest, last - 1);
        assert(seq![events.first()] + rest.take(last) =~= events.take(last + 1));
    }
}

/// While no event ends the traversal, every event is taken up and the
/// traversal is still running.
pub proof fn lemma_runs_while_pages_follow<U>(state: State<U>, events: Seq<Event<U>>)
    requires
        !(state is End),
        forall|i: int| 0 <= i < events.len() ==> !ends(#[trigger] events[i]),
    ensures
        consumed(state, events) == events,
        !(settled(state, events) is End),
    decreases events.len(),
{
    if events.len() == 0 {
        assert(events =~= Seq::<Event<U>>::empty());
    } else {
        let rest = events.drop_first();
        let next = after(state, events.first());
        assert(!ends(events[0]));
        assert forall|i: int| 0 <= i < rest.len() implies !ends(#[trigger] rest[i]) by {
            assert(rest[i] == events[i + 1]);
        }
        lemma_runs_while_pages_follow(next, rest);
        assert(seq![events.first()] + rest =~= events);
    }
}

} // verus!
