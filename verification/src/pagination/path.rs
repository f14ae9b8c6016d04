//! Paging through one or more segments of the path.
use crate::error::RequestError;
use crate::pagination::{Paginator, RequestModifier, State};
use crate::urls::{
    all_plain, check_path_fits, path_fits, path_segments, url_path, url_query, write_path,
    written_path,
};
use reqwest::Url;
use std::collections::HashMap;
use std::marker::PhantomData;
use vstd::prelude::*;

verus! {

/// The segments that a page assigns, by the position they take in the path,
/// counted from zero.
#[derive(Debug, Clone)]
pub struct PathModifier {
    /// The segment for each position that the page assigns.
    pub data: HashMap<usize, String>,
}

impl View for PathModifier {
    type V = Map<usize, Seq<char>>;

    open spec fn view(&self) -> Map<usize, Seq<char>> {
        self.data@.map_values(|segment: String| segment@)
    }
}

/// `segments` with each position that `data` names taking the segment that
/// `data` assigns to it.
pub open spec fn overwritten(segments: Seq<Seq<char>>, data: Map<usize, Seq<char>>) -> Seq<
    Seq<char>,
> {
    Seq::new(
        segments.len(),
        |i: int|
            if i <= usize::MAX && data.contains_key(i as usize) {
                data[i as usize]
            } else {
                segments[i]
            },
    )
}

/// The segments that `data` assigns to the positions from `from` up to, but
/// not including, `to`, by ascending position.
pub open spec fn assigned_in(data: Map<usize, Seq<char>>, from: int, to: int) -> Seq<Seq<char>>
    decreases to - from,
{
    if from < 0 || from >= to || from > usize::MAX {
        Seq::empty()
    } else if data.contains_key(from as usize) {
        seq![data[from as usize]] + assigned_in(data, from + 1, to)
    } else {
        assigned_in(data, from + 1, to)
    }
}

/// The segments that `data` assigns to the positions from `from` on, by
/// ascending position.
pub open spec fn assigned_from(data: Map<usize, Seq<char>>, from: int) -> Seq<Seq<char>> {
    assigned_in(data, from, usize::MAX + 1)
}

/// The path that results from `segments` when `data` is applied to it: the
/// positions that the path has are overwritten in place, and the segments that
/// `data` assigns beyond its end are appended, by ascending position.
pub open spec fn modified_path(segments: Seq<Seq<char>>, data: Map<usize, Seq<char>>) -> Seq<
    Seq<char>,
> {
    overwritten(segments, data) + assigned_from(data, segments.len() as int)
}

/// A range of positions can be cut in two: what is assigned in the whole is
/// what is assigned in the lower part, then what is assigned in the upper.
pub proof fn lemma_assigned_in_split(data: Map<usize, Seq<char>>, from: int, mid: int, to: int)
    requires
        0 <= from <= mid <= to <= usize::MAX + 1,
    ensures
        assigned_in(data, from, to) == assigned_in(data, from, mid) + assigned_in(data, mid, to),
    decreases mid - from,
{
    if from < mid {
        lemma_assigned_in_split(data, from + 1, mid, to);
        let upper = assigned_in(data, mid, to);
        let lower = assigned_in(data, from + 1, mid);
        if data.contains_key(from as usize) {
            assert(seq![data[from as usize]] + (lower + upper) =~= (seq![data[from as usize]]
                + lower) + upper);
        }
    } else {
        assert(Seq::<Seq<char>>::empty() + assigned_in(data, mid, to) =~= assigned_in(
            data,
            mid,
            to,
        ));
    }
}

/// A range holds at most one segment for each of its positions, and none
/// where nothing is assigned in it.
pub proof fn lemma_assigned_in_len(data: Map<usize, Seq<char>>, from: int, to: int)
    requires
        0 <= from <= to <= usize::MAX + 1,
    ensures
        assigned_in(data, from, to).len() <= to - from,
        (forall|k: usize| from <= k < to ==> !data.contains_key(k)) ==> assigned_in(data, from, to)
            == Seq::<Seq<char>>::empty(),
    decreases to - from,
{
    if from < to {
        lemma_assigned_in_len(data, from + 1, to);
        if forall|k: usize| from <= k < to ==> !data.contains_key(k) {
            assert(!data.contains_key(from as usize));
        }
    }
}

/// Ascending order: the segment assigned to `at` comes after all that is
/// assigned to lower positions and before all that is assigned to higher.
pub proof fn lemma_assigned_ascending(data: Map<usize, Seq<char>>, from: int, at: usize)
    requires
        0 <= from <= at,
        data.contains_key(at),
    ensures
        assigned_from(data, from) == assigned_in(data, from, at as int) + seq![data[at]]
            + assigned_from(data, at + 1),
{
    lemma_assigned_in_split(data, from, at as int, usize::MAX + 1);
    assert(assigned_in(data, at as int, usize::MAX + 1) == seq![data[at]] + assigned_in(
        data,
        at + 1,
        usize::MAX + 1,
    ));
    assert(assigned_in(data, from, at as int) + (seq![data[at]] + assigned_from(data, at + 1))
        =~= assigned_in(data, from, at as int) + seq![data[at]] + assigned_from(data, at + 1));
}

/// Positions to which nothing is assigned add nothing.
pub proof fn lemma_assigned_from_skip(data: Map<usize, Seq<char>>, from: int, to: int)
    requires
        0 <= from <= to <= usize::MAX + 1,
        forall|k: usize| from <= k < to ==> !data.contains_key(k),
    ensures
        assigned_from(data, from) == assigned_from(data, to),
{
    lemma_assigned_in_split(data, from, to, usize::MAX + 1);
    lemma_assigned_in_len(data, from, to);
    assert(Seq::<Seq<char>>::empty() + assigned_from(data, to) =~= assigned_from(data, to));
}

/// A position of the old path holds, in the new one, what is assigned to it,
/// or what it held where nothing is assigned; and the new path is the old one
/// made longer by what is assigned beyond its end.
pub proof fn lemma_modified_path_in_place(segments: Seq<Seq<char>>, data: Map<usize, Seq<char>>)
    ensures
        modified_path(segments, data).len() == segments.len() + assigned_from(
            data,
            segments.len() as int,
        ).len(),
        forall|i: int|
            0 <= i < segments.len() ==> #[trigger] modified_path(segments, data)[i] == if i
                <= usize::MAX && data.contains_key(i as usize) {
                data[i as usize]
            } else {
                segments[i]
            },
        forall|j: int|
            0 <= j < assigned_from(data, segments.len() as int).len() ==> #[trigger] modified_path(
                segments,
                data,
            )[segments.len() + j] == assigned_from(data, segments.len() as int)[j],
{
}

/// Where everything assigned from `from` on lies below `from` plus the number
/// of segments assigned there, these segments fill the positions from `from`
/// on without a gap: each such position `at` is assigned, and its segment is
/// the one numbered `at - from`.
pub proof fn lemma_assigned_without_gap(data: Map<usize, Seq<char>>, from: int, at: usize)
    requires
        0 <= from <= at < from + assigned_from(data, from).len(),
        forall|k: usize|
            data.contains_key(k) && from <= k ==> k < from + assigned_from(data, from).len(),
    ensures
        data.contains_key(at),
        assigned_from(data, from)[at - from] == data[at],
    decreases at - from,
{
    let count = assigned_from(data, from).len() as int;
    lemma_assigned_in_len(data, from, usize::MAX + 1);
    if !data.contains_key(from as usize) {
        assert(assigned_from(data, from) == assigned_from(data, from + 1));
        lemma_assigned_in_split(data, from + 1, from + count, usize::MAX + 1);
        lemma_assigned_in_len(data, from + 1, from + count);
        lemma_assigned_in_len(data, from + count, usize::MAX + 1);
        assert(false);
    }
    let rest = assigned_from(data, from + 1);
    assert(assigned_from(data, from) == seq![data[from as usize]] + rest);
    if at > from {
        lemma_assigned_without_gap(data, from + 1, at);
        assert(assigned_from(data, from)[at - from] == rest[at - from - 1]);
    }
}

/// Applying the same assignment a second time changes nothing, provided that
/// no position is assigned beyond the end of the path that the first time
/// gave. (Such a position is appended each time anew.)
pub proof fn lemma_modified_path_idempotent(segments: Seq<Seq<char>>, data: Map<usize, Seq<char>>)
    requires
        forall|k: usize| data.contains_key(k) ==> k < modified_path(segments, data).len(),
    ensures
        modified_path(modified_path(segments, data), data) == modified_path(segments, data),
{
    let len = segments.len() as int;
    let once = modified_path(segments, data);
    let tail = assigned_from(data, len);
    if len <= usize::MAX {
        lemma_assigned_in_len(data, len, usize::MAX + 1);
        lemma_assigned_in_len(data, once.len() as int, usize::MAX + 1);
    }
    assert(assigned_from(data, once.len() as int) == Seq::<Seq<char>>::empty());
    assert forall|i: int| 0 <= i < once.len() implies #[trigger] overwritten(once, data)[i]
        == once[i] by {
        if i >= len {
            lemma_assigned_without_gap(data, len, i as usize);
            assert(once[i] == tail[i - len]);
        }
    }
    assert(overwritten(once, data) =~= once);
    assert(once + Seq::<Seq<char>>::empty() =~= once);
}

/// A single assignment replaces the segment at its position where the path
/// has one, and is appended where the position lies at or beyond the path's
/// end.
pub proof fn lemma_single_assignment(segments: Seq<Seq<char>>, at: usize, segment: Seq<char>)
    ensures
        modified_path(segments, Map::<usize, Seq<char>>::empty().insert(at, segment)) == if at
            < segments.len() {
            segments.update(at as int, segment)
        } else {
            segments.push(segment)
        },
{
    let data = Map::<usize, Seq<char>>::empty().insert(at, segment);
    let len = segments.len() as int;
    if at < len {
        if len <= usize::MAX {
            lemma_assigned_in_len(data, len, usize::MAX + 1);
        }
        assert(overwritten(segments, data) =~= segments.update(at as int, segment));
        assert(segments.update(at as int, segment) + Seq::<Seq<char>>::empty()
            =~= segments.update(at as int, segment));
    } else {
        lemma_assigned_ascending(data, len, at);
        lemma_assigned_in_len(data, len, at as int);
        lemma_assigned_in_len(data, at + 1, usize::MAX + 1);
        assert(overwritten(segments, data) =~= segments);
        assert(segments + (Seq::<Seq<char>>::empty() + seq![segment] + Seq::<Seq<char>>::empty())
            =~= segments.push(segment));
    }
}

/// The smallest position from `from` on to which `data` assigns a segment.
pub fn next_index(data: &HashMap<usize, String>, from: usize) -> (found: Option<usize>)
    ensures
        match found {
            Some(index) => from <= index && data@.contains_key(index) && forall|other: usize|
                from <= other < index ==> !data@.contains_key(other),
            None => forall|other: usize| from <= other ==> !data@.contains_key(other),
        },
{
    let mut found: Option<usize> = None;
    for key in it: data.keys()
        invariant
            match found {
                Some(index) => from <= index && data@.contains_key(index) && forall|i: int|
                    0 <= i < it.index() && from <= *it.seq()[i] ==> index <= *it.seq()[i],
                None => forall|i: int| 0 <= i < it.index() ==> *it.seq()[i] < from,
            },
    {
        if *key >= from {
            match found {
                Some(index) => {
                    if *key < index {
                        found = Some(*key);
                    }
                },
                None => {
                    found = Some(*key);
                },
            }
        }
    }
    found
}

/// Applies `modifier` to the path `segments`: a position that the modifier
/// names takes the modifier's segment, and what the modifier assigns beyond
/// the end of the path is appended, by ascending position.
pub fn replace_segments(segments: &Vec<String>, modifier: &PathModifier) -> (replaced: Vec<String>)
    ensures
        replaced.deep_view() == modified_path(segments.deep_view(), modifier@),
{
    let ghost before = segments.deep_view();
    let ghost data = modifier@;
    let mut replaced: Vec<String> = Vec::new();
    let mut i: usize = 0;
    while i < segments.len()
        invariant
            i <= segments.len(),
            before == segments.deep_view(),
            data == modifier@,
            replaced.deep_view() == overwritten(before, data).take(i as int),
        decreases segments.len() - i,
    {
        let ghost so_far = replaced.deep_view();
        match modifier.data.get(&i) {
            Some(segment) => {
                replaced.push(segment.clone());
            },
            None => {
                replaced.push(segments[i].clone());
            },
        }
        proof {
            let next = overwritten(before, data)[i as int];
            assert(replaced.deep_view() =~= so_far.push(next));
            assert(overwritten(before, data).take(i + 1) =~= overwritten(before, data).take(
                i as int,
            ).push(next));
        }
        i += 1;
    }
    let ghost head = replaced.deep_view();
    proof {
        assert(overwritten(before, data).take(i as int) =~= overwritten(before, data));
        assert(head + Seq::<Seq<char>>::empty() =~= head);
    }
    let ghost mut tail: Seq<Seq<char>> = Seq::empty();
    let mut from: usize = segments.len();
    let mut more: bool = true;
    while more
        invariant
            data == modifier@,
            replaced.deep_view() == head + tail,
            more ==> tail + assigned_from(data, from as int) == assigned_from(
                data,
                before.len() as int,
            ),
            !more ==> tail == assigned_from(data, before.len() as int),
        decreases usize::MAX - from + if more { 1int } else { 0int },
    {
        match next_index(&modifier.data, from) {
            Some(index) => {
                let ghost so_far = replaced.deep_view();
                let found = modifier.data.get(&index);
                replaced.push(found.unwrap().clone());
                proof {
                    lemma_assigned_from_skip(data, from as int, index as int);
                    let rest = assigned_from(data, index + 1);
                    assert(assigned_from(data, index as int) == seq![data[index]] + rest);
                    assert(replaced.deep_view() =~= so_far.push(data[index]));
                    assert(tail + (seq![data[index]] + rest) =~= tail.push(data[index]) + rest);
                    tail = tail.push(data[index]);
                    assert(head + tail =~= so_far.push(data[index]));
                }
                if index == usize::MAX {
                    proof {
                        assert(assigned_from(data, index + 1) =~= Seq::<Seq<char>>::empty());
                        assert(tail + Seq::<Seq<char>>::empty() =~= tail);
                    }
                    more = false;
                } else {
                    from = index + 1;
                }
            },
            None => {
                proof {
                    lemma_assigned_from_skip(data, from as int, usize::MAX + 1);
                    assert(assigned_from(data, usize::MAX + 1) =~= Seq::<Seq<char>>::empty());
                    assert(tail + Seq::<Seq<char>>::empty() =~= tail);
                }
                more = false;
            },
        }
    }
    replaced
}

/// The message of the error that a URL without a path of segments gives.
pub open spec fn no_segments_message() -> Seq<char> {
    "URL cannot be a base"@
}

impl RequestModifier for PathModifier {
    /// A URL without a path of segments is not written to; any other must
    /// have room for the path that results.
    open spec fn fits(&self, url: Url) -> bool {
        match url_path(url) {
            Some(segments) => path_fits(url, modified_path(segments, self@)),
            None => true,
        }
    }

    /// A URL without a path of segments is refused and left as it was. In any
    /// other the path is replaced by [`modified_path`] of what it held, as the
    /// URL stores it: exactly that where its segments are plain. The query
    /// stays as it is.
    open spec fn modified(&self, before: Url, after: Url, result: Result<(), RequestError>) -> bool {
        match url_path(before) {
            Some(segments) => {
                let path = modified_path(segments, self@);
                &&& result is Ok
                &&& url_path(after) == Some(written_path(before, path))
                &&& all_plain(path) ==> url_path(after) == Some(path)
                &&& url_query(after) == url_query(before)
            },
            None => {
                &&& result matches Err(RequestError::Pagination { msg })
                &&& msg@ == no_segments_message()
                &&& after == before
            },
        }
    }

    fn check_fits(&self, url: &Url) -> (fits: bool) {
        match path_segments(url) {
            Some(segments) => {
                let replaced = replace_segments(&segments, self);
                check_path_fits(url, &replaced)
            },
            None => true,
        }
    }

    /// Rewrites the path of `url`, or fails where the URL has no path of
    /// segments.
    fn modify_request(&self, url: &mut Url) -> (result: Result<(), RequestError>) {
        match path_segments(url) {
            Some(segments) => {
                let replaced = replace_segments(&segments, self);
                write_path(url, &replaced);
                Ok(())
            },
            None => Err(RequestError::Pagination { msg: "URL cannot be a base".to_owned() }),
        }
    }
}

/// Written a second time into a URL, the same page leaves the path as the
/// first time made it, provided that the segments of that path are plain, so
/// that the URL stores them as they are, and that no position is assigned
/// beyond its end.
pub proof fn lemma_path_modifier_applied_twice(
    modifier: PathModifier,
    first: Url,
    second: Url,
    third: Url,
)
    requires
        url_path(first) is Some,
        all_plain(modified_path(url_path(first)->0, modifier@)),
        forall|k: usize| #[trigger]
            modifier@.contains_key(k) ==> k < modified_path(url_path(first)->0, modifier@).len(),
        modifier.modified(first, second, Ok(())),
        modifier.modified(second, third, Ok(())),
    ensures
        url_path(second) == Some(modified_path(url_path(first)->0, modifier@)),
        url_path(third) == url_path(second),
{
    lemma_modified_path_idempotent(url_path(first)->0, modifier@);
}

/// A paginator for resources that are paged through segments of the path.
/// Its policy `f` is asked, with the page that fetched a response and the
/// response, for the page that follows; `None` ends the traversal. A page
/// converts into the positions it assigns: position 2 with `"foo"` makes
/// `"foo"` the third segment.
pub struct PathPaginator<T, U, F = fn(Option<&U>, &T) -> Option<U>> {
    f: F,
    marker: PhantomData<(T, U)>,
}

impl<T, U, F: Fn(Option<&U>, &T) -> Option<U>> PathPaginator<T, U, F> {
    /// The policy that the paginator asks.
    pub closed spec fn policy(&self) -> F {
        self.f
    }

    /// A paginator that asks `f`.
    pub fn new(f: F) -> (paginator: Self)
        ensures
            paginator.policy() == f,
    {
        PathPaginator { f, marker: PhantomData }
    }

    /// The modifier that writes the page `data` into a request: what the page
    /// converts into. It is what [`Paginator::modifier`] gives, said of a
    /// paginator whose type is known.
    pub fn modifier(&self, data: U) -> (modifier: PathModifier) where PathModifier: From<U>
        ensures
            call_ensures(<PathModifier as From<U>>::from, (data,), modifier),
    {
        data.into()
    }

    /// What the paginator accepts and allows is what its policy requires and
    /// ensures: it can be asked wherever the policy can be called, it goes on
    /// with a page that the policy may return, and it ends where the policy
    /// may return none. The modifier that it makes for a page is what the
    /// page converts into.
    pub proof fn lemma_asks_policy(self) where PathModifier: From<U>
        ensures
            forall|data: U, modifier: PathModifier| #[trigger]
                self.makes(data, modifier) == call_ensures(
                    <PathModifier as From<U>>::from,
                    (data,),
                    modifier,
                ),
            forall|prev: Option<&U>, res: &T| #[trigger]
                self.accepts(prev, res) == call_requires(self.policy(), (prev, res)),
            forall|prev: Option<&U>, res: &T, state: State<U>| #[trigger]
                self.allows(prev, res, state) == match state {
                    State::Next(page) => call_ensures(self.policy(), (prev, res), Some(page)),
                    State::End => call_ensures(self.policy(), (prev, res), None),
                    State::Start(_) => false,
                },
    {
    }
}

impl<T, U, F> Paginator<T, U> for PathPaginator<T, U, F> where
    F: Fn(Option<&U>, &T) -> Option<U>,
    PathModifier: From<U>,
{
    type Modifier = PathModifier;

    /// The modifier is one that the conversion of the page may give.
    open spec fn makes(&self, data: U, modifier: PathModifier) -> bool {
        call_ensures(<PathModifier as From<U>>::from, (data,), modifier)
    }

    open spec fn accepts(&self, prev: Option<&U>, res: &T) -> bool {
        call_requires(self.policy(), (prev, res))
    }

    /// The traversal goes on with the page that the policy returned, and
    /// ends where it returned none.
    open spec fn allows(&self, prev: Option<&U>, res: &T, state: State<U>) -> bool {
        match state {
            State::Next(page) => call_ensures(self.policy(), (prev, res), Some(page)),
            State::End => call_ensures(self.policy(), (prev, res), None),
            State::Start(_) => false,
        }
    }

    fn modifier(&self, data: U) -> (modifier: PathModifier) {
        data.into()
    }

    fn next(&self, prev: Option<&U>, res: &T) -> (state: State<U>) {
        State::following((self.f)(prev, res))
    }
}

} // verus!
