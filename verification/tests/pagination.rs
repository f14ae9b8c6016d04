use reqwest::Url;
use std::collections::HashMap;
use vila::error::classify;
use vila::pagination::path::{PathModifier, PathPaginator};
use vila::pagination::query::{QueryModifier, QueryPaginator};
use vila::pagination::{advance, plan, try_modify, Paginator, State, Step};
use vila::request::endpoint_url;
use vila::RequestError;

#[derive(Clone, Debug, PartialEq)]
struct QueryData {
    page: usize,
}

impl From<QueryData> for QueryModifier {
    fn from(s: QueryData) -> QueryModifier {
        let mut data = QueryModifier::new();
        data.insert("page".into(), s.page.to_string());
        data
    }
}

#[derive(Clone, Debug, PartialEq)]
struct PathData {
    page: usize,
}

impl From<PathData> for PathModifier {
    fn from(s: PathData) -> PathModifier {
        let mut data = HashMap::new();
        // /nested/page/{number}
        //   ^      ^      ^
        //   0      1      2
        data.insert(2, s.page.to_string());
        PathModifier { data }
    }
}

#[derive(Debug, PartialEq)]
struct PaginationResponse {
    next_page: Option<usize>,
    data: String,
}

/// What the server of these tests holds: for each URL a status and, where the
/// status is a success, a page of the resource.
struct Server {
    pages: Vec<(String, u16, Option<usize>, String)>,
    requests: Vec<String>,
}

impl Server {
    fn new() -> Server {
        Server { pages: Vec::new(), requests: Vec::new() }
    }

    fn page(mut self, url: &str, next_page: Option<usize>, data: &str) -> Server {
        self.pages.push((url.to_string(), 200, next_page, data.to_string()));
        self
    }

    fn status(mut self, url: &str, status: u16, body: &str) -> Server {
        self.pages.push((url.to_string(), status, None, body.to_string()));
        self
    }

    fn send(&mut self, url: &Url) -> Result<PaginationResponse, RequestError> {
        self.requests.push(url.as_str().to_string());
        let found = self.pages.iter().find(|(at, _, _, _)| at == url.as_str());
        let (status, next_page, body) = match found {
            Some((_, status, next_page, body)) => (*status, *next_page, body.clone()),
            None => (404, None, "no such page".to_string()),
        };
        classify(Ok((status, body))).map(|data| PaginationResponse { next_page, data })
    }
}

/// Walks a resource as a driver does: asks what to do, sends one request,
/// yields one item, and moves on.
fn traverse<U: Clone, P: Paginator<PaginationResponse, U>>(
    server: &mut Server,
    endpoint: &str,
    paginator: &P,
    initial: Option<U>,
    polls: usize,
) -> Vec<Result<PaginationResponse, RequestError>> {
    let mut items = Vec::new();
    let mut state = State::Start(initial);
    for _ in 0..polls {
        let page = match plan(&state) {
            Step::Finish => continue,
            Step::Fetch(page) => page,
        };
        let mut url = Url::parse(&endpoint_url("http://localhost", endpoint)).unwrap();
        let mut written = Ok(());
        if let Some(page) = page {
            let modifier = paginator.modifier(page.clone());
            written = try_modify(&modifier, &mut url).expect("the page fits the URL");
        }
        let outcome = written.and_then(|()| server.send(&url));
        let next = advance(paginator, &state, &outcome);
        items.push(outcome);
        state = next;
    }
    items
}

fn data_of(items: &[Result<PaginationResponse, RequestError>]) -> Vec<String> {
    items.iter().map(|item| item.as_ref().unwrap().data.clone()).collect()
}

fn query_paginator() -> QueryPaginator<PaginationResponse, QueryData> {
    QueryPaginator::new(|_, r: &PaginationResponse| r.next_page.map(|page| QueryData { page }))
}

fn path_paginator() -> PathPaginator<PaginationResponse, PathData> {
    PathPaginator::new(|_, r: &PaginationResponse| r.next_page.map(|page| PathData { page }))
}

#[test]
fn query_pagination() {
    let mut server = Server::new()
        .page("http://localhost/page", Some(1), "First!")
        .page("http://localhost/page?page=1", Some(2), "Second!")
        .page("http://localhost/page?page=2", None, "Last!");
    let paginator = query_paginator();
    let items = traverse(&mut server, "/page", &paginator, None, 10);
    assert_eq!(data_of(&items), vec!["First!", "Second!", "Last!"]);
    assert_eq!(
        server.requests,
        vec![
            "http://localhost/page",
            "http://localhost/page?page=1",
            "http://localhost/page?page=2"
        ]
    );
}

#[test]
fn initial_pagination() {
    let mut server = Server::new()
        .page("http://localhost/page?page=1", Some(2), "Second!")
        .page("http://localhost/page?page=2", None, "Last!");
    let paginator = query_paginator();
    let items = traverse(&mut server, "/page", &paginator, Some(QueryData { page: 1 }), 10);
    assert_eq!(data_of(&items), vec!["Second!", "Last!"]);
    assert_eq!(server.requests.len(), 2);
}

#[test]
fn path_pagination() {
    let mut server = Server::new()
        .page("http://localhost/nested/page", Some(1), "First!")
        .page("http://localhost/nested/page/1", Some(2), "Second!")
        .page("http://localhost/nested/page/2", None, "Last!");
    let paginator = path_paginator();
    let items = traverse(&mut server, "/nested/page", &paginator, None, 10);
    assert_eq!(data_of(&items), vec!["First!", "Second!", "Last!"]);
    assert_eq!(
        server.requests,
        vec![
            "http://localhost/nested/page",
            "http://localhost/nested/page/1",
            "http://localhost/nested/page/2"
        ]
    );
}

#[test]
fn one_item_for_each_request() {
    let mut server = Server::new()
        .page("http://localhost/page", Some(1), "First!")
        .page("http://localhost/page?page=1", Some(2), "Second!")
        .page("http://localhost/page?page=2", Some(3), "Third!")
        .page("http://localhost/page?page=3", None, "Last!");
    let paginator =
        QueryPaginator::new(|_: Option<&QueryData>, r: &PaginationResponse| {
            r.next_page.map(|page| QueryData { page })
        });
    let items = traverse(&mut server, "/page", &paginator, None, 3);
    assert_eq!(items.len(), 3);
    assert_eq!(server.requests.len(), 3);
    let items = traverse(&mut server, "/page", &paginator, None, 100);
    assert_eq!(items.len(), 4);
    assert_eq!(server.requests.len(), 3 + 4);
}

#[test]
fn a_policy_that_never_advances_never_ends() {
    let mut server = Server::new().page("http://localhost/page?page=1", Some(1), "Again!");
    let paginator = query_paginator();
    let items = traverse(&mut server, "/page", &paginator, Some(QueryData { page: 1 }), 40);
    assert_eq!(items.len(), 40);
    assert_eq!(server.requests.len(), 40);
    assert!(items.iter().all(|item| item.as_ref().unwrap().data == "Again!"));
}

#[test]
fn the_end_is_final() {
    let state: State<QueryData> = State::End;
    assert!(state.is_end());
    assert!(state.page().is_none());
    assert!(matches!(plan(&state), Step::Finish));
    assert!(matches!(plan(&state), Step::Finish));
    let mut server = Server::new().page("http://localhost/page", None, "Only!");
    let paginator =
        QueryPaginator::new(|_: Option<&QueryData>, r: &PaginationResponse| {
            r.next_page.map(|page| QueryData { page })
        });
    let items = traverse(&mut server, "/page", &paginator, None, 25);
    assert_eq!(data_of(&items), vec!["Only!"]);
    assert_eq!(server.requests.len(), 1);
}

#[test]
fn an_error_is_the_last_item() {
    let mut server = Server::new()
        .page("http://localhost/page", Some(1), "First!")
        .status("http://localhost/page?page=1", 404, "gone")
        .page("http://localhost/page?page=2", None, "Last!");
    let paginator =
        QueryPaginator::new(|_: Option<&QueryData>, r: &PaginationResponse| {
            r.next_page.map(|page| QueryData { page })
        });
    let items = traverse(&mut server, "/page", &paginator, None, 10);
    assert_eq!(items.len(), 2);
    assert_eq!(items[0].as_ref().unwrap().data, "First!");
    match &items[1] {
        Err(RequestError::ClientError(status, body)) => {
            assert_eq!(*status, 404);
            assert_eq!(body, "gone");
        },
        other => panic!("unexpected item: {:?}", other),
    }
    assert_eq!(server.requests.len(), 2);
}

#[test]
fn a_page_that_cannot_be_written_ends_the_traversal() {
    let paginator =
        PathPaginator::new(|_: Option<&PathData>, r: &PaginationResponse| {
            r.next_page.map(|page| PathData { page })
        });
    let state = State::Start(Some(PathData { page: 4 }));
    let page = match plan(&state) {
        Step::Fetch(Some(page)) => page.clone(),
        other => panic!("unexpected step: {:?}", other),
    };
    let mut url = Url::parse("data:text/plain,HelloWorld").unwrap();
    let written = try_modify(&paginator.modifier(page), &mut url).unwrap();
    assert!(matches!(written, Err(RequestError::Pagination { .. })));
    let outcome: Result<PaginationResponse, RequestError> = written.map(|()| unreachable!());
    let next = advance(&paginator, &state, &outcome);
    assert!(next.is_end());
}

#[test]
fn a_decision_becomes_a_state() {
    assert!(matches!(State::following(Some(QueryData { page: 2 })), State::Next(QueryData { page: 2 })));
    assert!(matches!(State::<QueryData>::following(None), State::End));
}

#[test]
fn advance_leaves_the_end_alone() {
    let paginator = QueryPaginator::new(|_: Option<&QueryData>, _: &PaginationResponse| {
        Some(QueryData { page: 1 })
    });
    let response = Ok(PaginationResponse { next_page: Some(1), data: String::new() });
    assert!(advance(&paginator, &State::End, &response).is_end());
    assert!(matches!(
        advance(&paginator, &State::Start(None), &response),
        State::Next(QueryData { page: 1 })
    ));
}

#[test]
fn plan_reads_the_page_of_each_state() {
    let start: State<QueryData> = State::Start(None);
    assert!(matches!(plan(&start), Step::Fetch(None)));
    assert!(!start.is_end());
    assert_eq!(start.page(), None);
    let chosen = State::Start(Some(QueryData { page: 3 }));
    assert!(matches!(plan(&chosen), Step::Fetch(Some(QueryData { page: 3 }))));
    assert_eq!(chosen.page(), Some(&QueryData { page: 3 }));
    let next = State::Next(QueryData { page: 4 });
    assert!(matches!(plan(&next), Step::Fetch(Some(QueryData { page: 4 }))));
    assert_eq!(next.page(), Some(&QueryData { page: 4 }));
    assert!(matches!(State::<QueryData>::default(), State::Start(None)));
}

#[test]
fn advance_asks_the_paginator_with_the_page_that_was_sent() {
    let paginator = QueryPaginator::new(|prev: Option<&QueryData>, _: &PaginationResponse| {
        match prev {
            None => Some(QueryData { page: 1 }),
            Some(data) if data.page < 3 => Some(QueryData { page: data.page + 1 }),
            Some(_) => None,
        }
    });
    let response = || Ok(PaginationResponse { next_page: None, data: String::new() });
    let mut state = State::Start(None);
    let mut pages = Vec::new();
    while !state.is_end() {
        pages.push(state.page().cloned());
        state = advance(&paginator, &state, &response());
    }
    assert_eq!(
        pages,
        vec![
            None,
            Some(QueryData { page: 1 }),
            Some(QueryData { page: 2 }),
            Some(QueryData { page: 3 })
        ]
    );
}

#[test]
fn paginators_turn_a_page_into_its_modifier() {
    let query = QueryPaginator::new(|_: Option<&QueryData>, _: &PaginationResponse| None);
    let modifier = query.modifier(QueryData { page: 7 });
    assert_eq!(modifier.get("page"), Some(&"7".to_string()));
    assert_eq!(modifier.len(), 1);
    let path = PathPaginator::new(|_: Option<&PathData>, _: &PaginationResponse| None);
    let modifier = path.modifier(PathData { page: 7 });
    assert_eq!(modifier.data.get(&2), Some(&"7".to_string()));
    assert_eq!(modifier.data.len(), 1);
    let response = PaginationResponse { next_page: Some(1), data: String::new() };
    assert!(query.next(None, &response).is_end());
    assert!(path.next(None, &response).is_end());
}
