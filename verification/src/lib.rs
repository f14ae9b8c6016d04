//! Building blocks of a typed REST client: how a request's URL is derived, how
//! a paged resource is walked, and how a response is classified.
pub mod error;
pub mod pagination;
pub mod request;
pub mod retry;
pub mod urls;

pub use error::RequestError;
pub use request::{EmptyResponse, RequestData};
pub use retry::RetryPolicy;
