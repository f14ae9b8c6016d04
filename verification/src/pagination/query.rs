//! Paging through one or more query parameters.
use crate::error::RequestError;
use crate::pagination::{Paginator, RequestModifier, State};
use crate::urls::{
    append_query, check_query_fits, clear_query, query_fits, query_pairs, url_path, url_query,
    Param,
};
use reqwest::Url;
use std::marker::PhantomData;
use vstd::prelude::*;

verus! {

/// Whether `params` holds a parameter called `name`.
pub open spec fn assigns(params: Seq<Param>, name: Seq<char>) -> bool {
    exists|i: int| 0 <= i < params.len() && (#[trigger] params[i]).0 == name
}

/// Whether no two parameters of `params` have the same name.
pub open spec fn distinct_names(params: Seq<Param>) -> bool {
    forall|i: int, j: int|
        0 <= i < j < params.len() ==> (#[trigger] params[i]).0 != (#[trigger] params[j]).0
}

/// The first position at which `params` holds a parameter called `name`, or
/// the length of `params` where it holds none.
pub open spec fn position_of(params: Seq<Param>, name: Seq<char>) -> int
    decreases params.len(),
{
    if params.len() == 0 {
        0
    } else if params.first().0 == name {
        0
    } else {
        1 + position_of(params.drop_first(), name)
    }
}

/// `params` after `value` was assigned to `name`: a name that is there keeps
/// its place and gets the value, a new name comes last.
pub open spec fn with_param(params: Seq<Param>, name: Seq<char>, value: Seq<char>) -> Seq<Param> {
    if assigns(params, name) {
        params.update(position_of(params, name), (name, value))
    } else {
        params.push((name, value))
    }
}

/// The test that keeps the parameters whose name `assigned` does not hold.
pub open spec fn unassigned(assigned: Seq<Param>) -> spec_fn(Param) -> bool {
    |param: Param| !assigns(assigned, param.0)
}

/// The query that results from `existing` when `assigned` is applied to it:
/// the parameters that `assigned` does not name stay as they are and where
/// they are, and those of `assigned` follow them.
pub open spec fn merged_query(existing: Seq<Param>, assigned: Seq<Param>) -> Seq<Param> {
    existing.filter(unassigned(assigned)) + assigned
}

/// `position_of` finds the name where it is assigned, and runs to the end
/// where it is not.
pub proof fn lemma_position_of(params: Seq<Param>, name: Seq<char>)
    ensures
        0 <= position_of(params, name) <= params.len(),
        assigns(params, name) <==> position_of(params, name) < params.len(),
        position_of(params, name) < params.len() ==> params[position_of(params, name)].0 == name,
        forall|k: int| 0 <= k < position_of(params, name) ==> (#[trigger] params[k]).0 != name,
    decreases params.len(),
{
    if params.len() == 0 {
    } else if params.first().0 == name {
        assert(params[0].0 == name);
    } else {
        let rest = params.drop_first();
        lemma_position_of(rest, name);
        let at = position_of(rest, name);
        assert forall|k: int| 0 <= k < at + 1 implies (#[trigger] params[k]).0 != name by {
            if k > 0 {
                assert(rest[k - 1] == params[k]);
            }
        }
        if at < rest.len() {
            assert(rest[at] == params[at + 1]);
        }
        if assigns(params, name) {
            let i = choose|i: int| 0 <= i < params.len() && (#[trigger] params[i]).0 == name;
            assert(rest[i - 1] == params[i]);
            assert(assigns(rest, name));
        }
    }
}

/// What merging keeps and what it adds. Every parameter of the old query whose
/// name is not assigned is in the result as it was. Every assigned parameter
/// is in the result. Nothing else is: a parameter of the result whose name is
/// assigned is the assigned one, with the assigned value, and any other comes
/// from the old query.
pub proof fn lemma_merged_query_holds(existing: Seq<Param>, assigned: Seq<Param>)
    ensures
        forall|i: int|
            0 <= i < existing.len() && !assigns(assigned, (#[trigger] existing[i]).0)
                ==> merged_query(existing, assigned).contains(existing[i]),
        forall|j: int|
            0 <= j < assigned.len() ==> merged_query(existing, assigned).contains(
                #[trigger] assigned[j],
            ),
        forall|k: int|
            0 <= k < merged_query(existing, assigned).len() ==> {
                let param = #[trigger] merged_query(existing, assigned)[k];
                if assigns(assigned, param.0) {
                    assigned.contains(param)
                } else {
                    existing.contains(param)
                }
            },
{
    let keep = unassigned(assigned);
    let kept = existing.filter(keep);
    let merged = merged_query(existing, assigned);
    assert forall|i: int|
        0 <= i < existing.len() && !assigns(assigned, (#[trigger] existing[i]).0) implies merged.contains(
        existing[i],
    ) by {
        existing.lemma_filter_contains(keep, i);
        let at = choose|at: int| 0 <= at < kept.len() && kept[at] == existing[i];
        assert(merged[at] == existing[i]);
    }
    assert forall|j: int| 0 <= j < assigned.len() implies merged.contains(
        #[trigger] assigned[j],
    ) by {
        assert(merged[kept.len() + j] == assigned[j]);
    }
    assert forall|k: int| 0 <= k < merged.len() implies {
        let param = #[trigger] merged[k];
        if assigns(assigned, param.0) {
            assigned.contains(param)
        } else {
            existing.contains(param)
        }
    } by {
        if k < kept.len() {
            existing.lemma_filter_pred(keep, k);
            existing.lemma_filter_contains_rev(keep, kept[k]);
            assert(merged[k] == kept[k]);
        } else {
            let j = k - kept.len();
            assert(merged[k] == assigned[j]);
            assert(assigns(assigned, assigned[j].0));
        }
    }
}

/// In a merged query an assigned name has one value, the assigned one,
/// whatever the old query held for it.
pub proof fn lemma_merged_query_overwrites(
    existing: Seq<Param>,
    assigned: Seq<Param>,
    j: int,
    k: int,
)
    requires
        distinct_names(assigned),
        0 <= j < assigned.len(),
        0 <= k < merged_query(existing, assigned).len(),
        merged_query(existing, assigned)[k].0 == assigned[j].0,
    ensures
        merged_query(existing, assigned)[k] == assigned[j],
{
    lemma_merged_query_holds(existing, assigned);
    let param = merged_query(existing, assigned)[k];
    assert(assigns(assigned, param.0));
    let at = choose|at: int| 0 <= at < assigned.len() && assigned[at] == param;
    if at != j {
        if at < j {
            assert(assigned[at].0 != assigned[j].0);
        } else {
            assert(assigned[j].0 != assigned[at].0);
        }
    }
}

/// The order in which the same parameters are assigned does not change what
/// is kept of the old query, nor which parameters the result holds, nor how
/// often: only the order in which the assigned ones follow.
pub proof fn lemma_merged_query_any_order(
    existing: Seq<Param>,
    assigned: Seq<Param>,
    reordered: Seq<Param>,
)
    requires
        assigned.to_multiset() == reordered.to_multiset(),
    ensures
        existing.filter(unassigned(assigned)) == existing.filter(unassigned(reordered)),
        merged_query(existing, assigned).to_multiset() == merged_query(
            existing,
            reordered,
        ).to_multiset(),
{
    broadcast use vstd::seq_lib::group_to_multiset_ensures;

    assert forall|param: Param| #[trigger]
        unassigned(assigned)(param) == unassigned(reordered)(param) by {
        if assigns(assigned, param.0) {
            let i = choose|i: int| 0 <= i < assigned.len() && (#[trigger] assigned[i]).0 == param.0;
            assert(assigned.contains(assigned[i]));
            assert(assigned.to_multiset().count(assigned[i]) > 0);
            assert(reordered.contains(assigned[i]));
            let j = choose|j: int| 0 <= j < reordered.len() && reordered[j] == assigned[i];
            assert(reordered[j].0 == param.0);
        }
        if assigns(reordered, param.0) {
            let i = choose|i: int|
                0 <= i < reordered.len() && (#[trigger] reordered[i]).0 == param.0;
            assert(reordered.contains(reordered[i]));
            assert(reordered.to_multiset().count(reordered[i]) > 0);
            assert(assigned.contains(reordered[i]));
            let j = choose|j: int| 0 <= j < assigned.len() && assigned[j] == reordered[i];
            assert(assigned[j].0 == param.0);
        }
    }
    assert(unassigned(assigned) =~= unassigned(reordered));
    let kept = existing.filter(unassigned(assigned));
    vstd::seq_lib::lemma_multiset_commutative(kept, assigned);
    vstd::seq_lib::lemma_multiset_commutative(kept, reordered);
}

/// Every parameter of `params` passes `keep`: filtering keeps them all.
proof fn lemma_filter_keeps_all(params: Seq<Param>, keep: spec_fn(Param) -> bool)
    requires
        forall|i: int| 0 <= i < params.len() ==> keep(#[trigger] params[i]),
    ensures
        params.filter(keep) == params,
    decreases params.len(),
{
    reveal(Seq::filter);
    if params.len() > 0 {
        let front = params.drop_last();
        assert forall|i: int| 0 <= i < front.len() implies keep(#[trigger] front[i]) by {
            assert(front[i] == params[i]);
        }
        lemma_filter_keeps_all(front, keep);
        assert(keep(params[params.len() - 1]));
        assert(front.push(params.last()) =~= params);
    }
}

/// No parameter of `params` passes `keep`: filtering keeps none.
proof fn lemma_filter_keeps_none(params: Seq<Param>, keep: spec_fn(Param) -> bool)
    requires
        forall|i: int| 0 <= i < params.len() ==> !keep(#[trigger] params[i]),
    ensures
        params.filter(keep) == Seq::<Param>::empty(),
    decreases params.len(),
{
    reveal(Seq::filter);
    if params.len() > 0 {
        let front = params.drop_last();
        assert forall|i: int| 0 <= i < front.len() implies !keep(#[trigger] front[i]) by {
            assert(front[i] == params[i]);
        }
        lemma_filter_keeps_none(front, keep);
        assert(!keep(params[params.len() - 1]));
    }
}

/// Applying the same parameters a second time changes nothing.
pub proof fn lemma_merged_query_idempotent(existing: Seq<Param>, assigned: Seq<Param>)
    ensures
        merged_query(merged_query(existing, assigned), assigned) == merged_query(
            existing,
            assigned,
        ),
{
    let keep = unassigned(assigned);
    let kept = existing.filter(keep);
    assert forall|i: int| 0 <= i < kept.len() implies keep(#[trigger] kept[i]) by {
        existing.lemma_filter_pred(keep, i);
    }
    lemma_filter_keeps_all(kept, keep);
    assert forall|j: int| 0 <= j < assigned.len() implies !keep(#[trigger] assigned[j]) by {
        assert(assigns(assigned, assigned[j].0));
    }
    lemma_filter_keeps_none(assigned, keep);
    Seq::filter_distributes_over_add(kept, assigned, keep);
    assert(kept + Seq::<Param>::empty() =~= kept);
}

/// The query parameters that a page assigns: each name at most once, in the
/// order in which the names were first given.
#[derive(Debug)]
pub struct QueryModifier {
    data: Vec<(String, String)>,
}

impl View for QueryModifier {
    type V = Seq<Param>;

    closed spec fn view(&self) -> Seq<Param> {
        self.data.deep_view()
    }
}

impl Clone for QueryModifier {
    fn clone(&self) -> (copy: Self)
        ensures
            copy@ == self@,
    {
        proof {
            use_type_invariant(self);
        }
        let mut data: Vec<(String, String)> = Vec::new();
        let mut i: usize = 0;
        while i < self.data.len()
            invariant
                i <= self.data.len(),
                data.deep_view() == self.data.deep_view().take(i as int),
            decreases self.data.len() - i,
        {
            let ghost before = data.deep_view();
            data.push((self.data[i].0.clone(), self.data[i].1.clone()));
            assert(data.deep_view() =~= before.push(self.data.deep_view()[i as int]));
            assert(self.data.deep_view().take(i + 1) =~= self.data.deep_view().take(
                i as int,
            ).push(self.data.deep_view()[i as int]));
            i += 1;
        }
        assert(self.data.deep_view().take(i as int) =~= self.data.deep_view());
        QueryModifier { data }
    }
}

impl QueryModifier {
    #[verifier::type_invariant]
    spec fn names_are_distinct(self) -> bool {
        distinct_names(self.data.deep_view())
    }

    /// A modifier that assigns nothing.
    pub fn new() -> (m: Self)
        ensures
            m@ == Seq::<Param>::empty(),
    {
        QueryModifier { data: Vec::new() }
    }

    /// The parameters that are assigned, in order. No name occurs twice.
    pub fn params(&self) -> (params: &Vec<(String, String)>)
        ensures
            params.deep_view() == self@,
            distinct_names(self@),
    {
        proof {
            use_type_invariant(self);
        }
        &self.data
    }

    /// The number of names that are assigned.
    pub fn len(&self) -> (n: usize)
        ensures
            n == self@.len(),
    {
        self.data.len()
    }

    /// Whether nothing is assigned.
    pub fn is_empty(&self) -> (b: bool)
        ensures
            b == (self@.len() == 0),
    {
        self.data.len() == 0
    }

    /// The position of the parameter called `name`, if one is assigned.
    fn find(&self, name: &String) -> (at: usize)
        ensures
            at == position_of(self@, name@),
            at <= self@.len(),
    {
        let mut i: usize = 0;
        while i < self.data.len()
            invariant
                i <= self.data.len(),
                forall|k: int| 0 <= k < i ==> (#[trigger] self@[k]).0 != name@,
            decreases self.data.len() - i,
        {
            if self.data[i].0 == *name {
                proof {
                    lemma_position_of(self@, name@);
                    assert(self@[i as int].0 == name@);
                }
                return i;
            }
            assert(self@[i as int].0 != name@);
            i += 1;
        }
        proof {
            lemma_position_of(self@, name@);
        }
        i
    }

    /// Whether a value is assigned to `name`.
    pub fn contains_key(&self, name: &str) -> (b: bool)
        ensures
            b == assigns(self@, name@),
    {
        let owned = name.to_owned();
        let at: usize = self.find(&owned);
        proof {
            lemma_position_of(self@, name@);
        }
        at < self.data.len()
    }

    /// The value that is assigned to `name`, if any.
    pub fn get(&self, name: &str) -> (value: Option<&String>)
        ensures
            match value {
                Some(v) => assigns(self@, name@) && self@[position_of(self@, name@)] == (
                    name@,
                    v@,
                ),
                None => !assigns(self@, name@),
            },
    {
        let owned = name.to_owned();
        let at: usize = self.find(&owned);
        proof {
            lemma_position_of(self@, name@);
        }
        if at < self.data.len() {
            Some(&self.data[at].1)
        } else {
            None
        }
    }

    /// Assigns `value` to `name`. A name that is assigned already keeps its
    /// place and gets the new value; a new name comes last.
    pub fn insert(&mut self, name: String, value: String)
        ensures
            final(self)@ == with_param(old(self)@, name@, value@),
            distinct_names(final(self)@),
    {
        proof {
            use_type_invariant(&*self);
            lemma_position_of(self@, name@);
        }
        let at: usize = self.find(&name);
        let ghost before = self@;
        let mut data: Vec<(String, String)> = Vec::new();
        core::mem::swap(&mut data, &mut self.data);
        if at < data.len() {
            data.set(at, (name, value));
            assert(data.deep_view() =~= before.update(at as int, (name@, value@)));
        } else {
            data.push((name, value));
            assert(data.deep_view() =~= before.push((name@, value@)));
        }
        proof {
            let after = data.deep_view();
            assert forall|i: int, j: int| 0 <= i < j < after.len() implies (#[trigger] after[i]).0
                != (#[trigger] after[j]).0 by {
                if i < before.len() && i != at {
                    assert(after[i] == before[i]);
                }
                if j < before.len() && j != at {
                    assert(after[j] == before[j]);
                }
            }
        }
        self.data = data;
    }
}

/// Applies `modifier` to the parameters `existing`: those that the modifier
/// does not name are kept, in order, and the modifier's own follow them.
pub fn merge_query(existing: &Vec<(String, String)>, modifier: &QueryModifier) -> (merged: Vec<
    (String, String),
>)
    ensures
        merged.deep_view() == merged_query(existing.deep_view(), modifier@),
{
    let ghost before = existing.deep_view();
    let ghost keep = unassigned(modifier@);
    let mut merged: Vec<(String, String)> = Vec::new();
    let mut i: usize = 0;
    proof {
        assert(before.take(0) =~= Seq::<Param>::empty());
        before.take(0).lemma_filter_len(keep);
        assert(merged.deep_view() =~= before.take(0).filter(keep));
    }
    while i < existing.len()
        invariant
            i <= existing.len(),
            before == existing.deep_view(),
            keep == unassigned(modifier@),
            merged.deep_view() == before.take(i as int).filter(keep),
        decreases existing.len() - i,
    {
        let ghost so_far = merged.deep_view();
        proof {
            assert(before.take(i + 1) =~= before.take(i as int).push(before[i as int]));
            before.take(i as int).lemma_filter_push(before[i as int], keep);
            assert(before[i as int] == (existing[i as int].0@, existing[i as int].1@));
        }
        if !modifier.contains_key(existing[i].0.as_str()) {
            merged.push((existing[i].0.clone(), existing[i].1.clone()));
            assert(merged.deep_view() =~= so_far.push(before[i as int]));
        }
        i += 1;
    }
    let ghost kept = merged.deep_view();
    let assigned = modifier.params();
    let mut j: usize = 0;
    proof {
        assert(before.take(i as int) =~= before);
        assert(merged.deep_view() =~= kept + modifier@.take(0));
    }
    while j < assigned.len()
        invariant
            j <= assigned.len(),
            assigned.deep_view() == modifier@,
            merged.deep_view() == kept + modifier@.take(j as int),
        decreases assigned.len() - j,
    {
        let ghost so_far = merged.deep_view();
        merged.push((assigned[j].0.clone(), assigned[j].1.clone()));
        proof {
            assert(modifier@[j as int] == (assigned[j as int].0@, assigned[j as int].1@));
            assert(merged.deep_view() =~= so_far.push(modifier@[j as int]));
            assert(kept + modifier@.take(j + 1) =~= (kept + modifier@.take(j as int)).push(
                modifier@[j as int],
            ));
        }
        j += 1;
    }
    proof {
        assert(modifier@.take(j as int) =~= modifier@);
    }
    merged
}

impl RequestModifier for QueryModifier {
    /// The URL must have room for the query that results.
    open spec fn fits(&self, url: Url) -> bool {
        query_fits(url, merged_query(url_query(url), self@))
    }

    /// The change never fails. The query becomes the old one merged with the
    /// assigned parameters, and the path stays as it is.
    open spec fn modified(&self, before: Url, after: Url, result: Result<(), RequestError>) -> bool {
        &&& result is Ok
        &&& url_query(after) == merged_query(url_query(before), self@)
        &&& url_path(after) == url_path(before)
    }

    fn check_fits(&self, url: &Url) -> (fits: bool) {
        let existing = query_pairs(url);
        let merged = merge_query(&existing, self);
        check_query_fits(url, &merged)
    }

    /// Overwrites the parameters that the modifier names and adds those that
    /// the URL does not have yet; every other parameter is kept.
    fn modify_request(&self, url: &mut Url) -> (result: Result<(), RequestError>) {
        let existing = query_pairs(url);
        let merged = merge_query(&existing, self);
        clear_query(url);
        proof {
            assert(Seq::<Param>::empty() + merged.deep_view() =~= merged.deep_view());
        }
        append_query(url, &merged);
        Ok(())
    }
}

/// Written a second time into a URL, the same page leaves the query as the
/// first time made it.
pub proof fn lemma_query_modifier_applied_twice(
    modifier: QueryModifier,
    first: Url,
    second: Url,
    third: Url,
)
    requires
        modifier.modified(first, second, Ok(())),
        modifier.modified(second, third, Ok(())),
    ensures
        url_query(second) == merged_query(url_query(first), modifier@),
        url_query(third) == url_query(second),
        url_path(third) == url_path(first),
{
    lemma_merged_query_idempotent(url_query(first), modifier@);
}

/// A paginator for resources that are paged through query parameters. Its
/// policy `f` is asked, with the page that fetched a response and the
/// response, for the page that follows; `None` ends the traversal.
pub struct QueryPaginator<T, U, F = fn(Option<&U>, &T) -> Option<U>> {
    f: F,
    marker: PhantomData<(T, U)>,
}

impl<T, U, F: Fn(Option<&U>, &T) -> Option<U>> QueryPaginator<T, U, F> {
    /// The policy that the paginator asks.
    pub closed spec fn policy(&self) -> F {
        self.f
    }

    /// A paginator that asks `f`.
    pub fn new(f: F) -> (paginator: Self)
        ensures
            paginator.policy() == f,
    {
        QueryPaginator { f, marker: PhantomData }
    }

    /// The modifier that writes the page `data` into a request: what the page
    /// converts into. It is what [`Paginator::modifier`] gives, said of a
    /// paginator whose type is known.
    pub fn modifier(&self, data: U) -> (modifier: QueryModifier) where QueryModifier: From<U>
        ensures
            call_ensures(<QueryModifier as From<U>>::from, (data,), modifier),
    {
        data.into()
    }

    /// What the paginator accepts and allows is what its policy requires and
    /// ensures: it can be asked wherever the policy can be called, it goes on
    /// with a page that the policy may return, and it ends where the policy
    /// may return none. The modifier that it makes for a page is what the
    /// page converts into.
    pub proof fn lemma_asks_policy(self) where QueryModifier: From<U>
        ensures
            forall|data: U, modifier: QueryModifier| #[trigger]
                self.makes(data, modifier) == call_ensures(
                    <QueryModifier as From<U>>::from,
                    (data,),
                    modifier,
                ),
            forall|prev: Option<&U>, res: &T| #[trigger]
                self.accepts(prev, res) == call_requires(self.policy(), (prev, res)),
            forall|prev: Option<&U>, res: &T, state: State<U>| #[trigger]
                self.allows(prev, res, state) == match state {
                    State::Next(page) => call_ensures(self.policy(), (prev, res), Some(page)),
                    State::End => call_ensures(self.policy(), (prev, res), None),
                    State::Start(_) => false,
                },
    {
    }
}

impl<T, U, F> Paginator<T, U> for QueryPaginator<T, U, F> where
    F: Fn(Option<&U>, &T) -> Option<U>,
    QueryModifier: From<U>,
{
    type Modifier = QueryModifier;

    /// The modifier is one that the conversion of the page may give.
    open spec fn makes(&self, data: U, modifier: QueryModifier) -> bool {
        call_ensures(<QueryModifier as From<U>>::from, (data,), modifier)
    }

    open spec fn accepts(&self, prev: Option<&U>, res: &T) -> bool {
        call_requires(self.policy(), (prev, res))
    }

    /// The traversal goes on with the page that the policy returned, and
    /// ends where it returned none.
    open spec fn allows(&self, prev: Option<&U>, res: &T, state: State<U>) -> bool {
        match state {
            State::Next(page) => call_ensures(self.policy(), (prev, res), Some(page)),
            State::End => call_ensures(self.policy(), (prev, res), None),
            State::Start(_) => false,
        }
    }

    fn modifier(&self, data: U) -> (modifier: QueryModifier) {
        data.into()
    }

    fn next(&self, prev: Option<&U>, res: &T) -> (state: State<U>) {
        State::following((self.f)(prev, res))
    }
}

} // verus!
