use reqwest::Url;
use vila::pagination::query::{merge_query, QueryModifier};
use vila::pagination::{try_modify, RequestModifier};

fn assign(pairs: &[(&str, &str)]) -> QueryModifier {
    let mut modifier = QueryModifier::new();
    for (name, value) in pairs {
        modifier.insert(name.to_string(), value.to_string());
    }
    modifier
}

fn owned(pairs: &[(&str, &str)]) -> Vec<(String, String)> {
    pairs.iter().map(|(name, value)| (name.to_string(), value.to_string())).collect()
}

fn query_of(url: &Url) -> Vec<(String, String)> {
    url.query_pairs().map(|(name, value)| (name.into_owned(), value.into_owned())).collect()
}

#[test]
fn query_modifier_adds_a_missing_parameter() {
    let mut url = Url::parse("http://localhost/page").unwrap();
    let outcome = try_modify(&assign(&[("page", "1")]), &mut url);
    assert!(matches!(outcome, Some(Ok(()))));
    assert_eq!(url.as_str(), "http://localhost/page?page=1");
}

#[test]
fn query_modifier_overwrites_and_keeps() {
    let mut url = Url::parse("http://localhost/items?a=1&b=2").unwrap();
    let modifier = assign(&[("b", "9"), ("c", "3")]);
    assert!(modifier.check_fits(&url));
    assert!(modifier.modify_request(&mut url).is_ok());
    assert_eq!(query_of(&url), owned(&[("a", "1"), ("b", "9"), ("c", "3")]));
    assert_eq!(url.as_str(), "http://localhost/items?a=1&b=9&c=3");
}

#[test]
fn query_modifier_is_idempotent() {
    let mut url = Url::parse("http://localhost/items?a=1&b=2").unwrap();
    let modifier = assign(&[("b", "9"), ("c", "3")]);
    assert!(matches!(try_modify(&modifier, &mut url), Some(Ok(()))));
    let once = url.clone();
    assert!(matches!(try_modify(&modifier, &mut url), Some(Ok(()))));
    assert_eq!(url, once);
}

#[test]
fn query_modifier_keeps_every_occurrence_of_an_untouched_name() {
    let mut url = Url::parse("http://localhost/items?tag=x&page=0&tag=y&page=7").unwrap();
    assert!(matches!(try_modify(&assign(&[("page", "1")]), &mut url), Some(Ok(()))));
    assert_eq!(query_of(&url), owned(&[("tag", "x"), ("tag", "y"), ("page", "1")]));
}

#[test]
fn query_modifier_without_assignments_keeps_the_query() {
    let mut url = Url::parse("http://localhost/items?a=1&b=2").unwrap();
    assert!(matches!(try_modify(&QueryModifier::new(), &mut url), Some(Ok(()))));
    assert_eq!(url.as_str(), "http://localhost/items?a=1&b=2");
}

#[test]
fn query_modifier_without_assignments_adds_no_question_mark() {
    let mut url = Url::parse("http://localhost/items").unwrap();
    assert!(matches!(try_modify(&QueryModifier::new(), &mut url), Some(Ok(()))));
    assert_eq!(url.as_str(), "http://localhost/items");
    assert_eq!(url.query(), None);
}

#[test]
fn query_modifier_leaves_path_and_fragment_alone() {
    let mut url = Url::parse("http://localhost/a/b?x=1#top").unwrap();
    assert!(matches!(try_modify(&assign(&[("page", "2")]), &mut url), Some(Ok(()))));
    assert_eq!(url.as_str(), "http://localhost/a/b?x=1&page=2#top");
    assert_eq!(url.path(), "/a/b");
    assert_eq!(url.fragment(), Some("top"));
}

#[test]
fn query_modifier_encodes_what_it_writes() {
    let mut url = Url::parse("http://localhost/search?q=old+value").unwrap();
    let modifier = assign(&[("q", "a b&c=d"), ("cursor", "x/y?z")]);
    assert!(matches!(try_modify(&modifier, &mut url), Some(Ok(()))));
    assert_eq!(query_of(&url), owned(&[("q", "a b&c=d"), ("cursor", "x/y?z")]));
    assert_eq!(url.query(), Some("q=a+b%26c%3Dd&cursor=x%2Fy%3Fz"));
}

#[test]
fn query_modifier_keeps_encoded_parameters_by_their_meaning() {
    let mut url = Url::parse("http://localhost/search?q=a%20b&page=1").unwrap();
    assert!(matches!(try_modify(&assign(&[("page", "2")]), &mut url), Some(Ok(()))));
    assert_eq!(query_of(&url), owned(&[("q", "a b"), ("page", "2")]));
}

#[test]
fn can_overwrite_existing_query() {
    let mut url = Url::parse("http://localhost/page?page=0").unwrap();
    let modifier = assign(&[("page", "1")]);
    assert!(modifier.check_fits(&url));
    assert!(modifier.modify_request(&mut url).is_ok());
    assert_eq!(url.as_str(), "http://localhost/page?page=1");
    assert_eq!(query_of(&url), owned(&[("page", "1")]));
}

#[test]
fn insert_keeps_each_name_once() {
    let mut modifier = QueryModifier::new();
    assert!(modifier.is_empty());
    modifier.insert("page".to_string(), "1".to_string());
    modifier.insert("size".to_string(), "10".to_string());
    modifier.insert("page".to_string(), "2".to_string());
    assert_eq!(modifier.len(), 2);
    assert!(!modifier.is_empty());
    assert_eq!(modifier.params(), &owned(&[("page", "2"), ("size", "10")]));
    assert_eq!(modifier.get("page"), Some(&"2".to_string()));
    assert_eq!(modifier.get("size"), Some(&"10".to_string()));
    assert_eq!(modifier.get("other"), None);
    assert!(modifier.contains_key("size"));
    assert!(!modifier.contains_key("siz"));
    assert!(!modifier.contains_key(""));
}

#[test]
fn clone_holds_the_same_assignments() {
    let modifier = assign(&[("b", "9"), ("c", "3")]);
    let copy = modifier.clone();
    assert_eq!(copy.params(), modifier.params());
}

#[test]
fn merge_query_keeps_then_adds() {
    let existing = owned(&[("a", "1"), ("b", "2")]);
    let merged = merge_query(&existing, &assign(&[("b", "9"), ("c", "3")]));
    assert_eq!(merged, owned(&[("a", "1"), ("b", "9"), ("c", "3")]));
}

#[test]
fn merge_query_on_an_empty_query() {
    let merged = merge_query(&Vec::new(), &assign(&[("page", "1")]));
    assert_eq!(merged, owned(&[("page", "1")]));
    assert_eq!(merge_query(&Vec::new(), &QueryModifier::new()), Vec::new());
}

#[test]
fn merge_query_in_any_order_gives_the_same_parameters() {
    let existing = owned(&[("a", "1"), ("b", "2"), ("d", "4")]);
    let mut one = merge_query(&existing, &assign(&[("b", "9"), ("c", "3")]));
    let mut other = merge_query(&existing, &assign(&[("c", "3"), ("b", "9")]));
    assert_eq!(&one[..2], &owned(&[("a", "1"), ("d", "4")])[..]);
    assert_eq!(&other[..2], &owned(&[("a", "1"), ("d", "4")])[..]);
    one.sort();
    other.sort();
    assert_eq!(one, other);
}

#[test]
fn merge_query_twice_is_merge_query_once() {
    let existing = owned(&[("a", "1"), ("b", "2")]);
    let modifier = assign(&[("b", "9"), ("c", "3")]);
    let once = merge_query(&existing, &modifier);
    assert_eq!(merge_query(&once, &modifier), once);
}
