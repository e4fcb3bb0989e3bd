pub mod dispatch;
pub mod http_request;
pub mod http_response;
pub mod http_utils;
pub mod thread_pool;
pub mod wire_lemmas;
pub mod workload;

pub use dispatch::{dispatch, find_route, Dispatch};
pub use http_request::HttpRequest;
pub use http_response::HttpResponse;
pub use http_utils::{HttpCode, HttpProtocol, HttpVerb, ParseError};
pub use thread_pool::{PoolCreationError, PoolState, ShutdownStep, WorkerStep};
pub use workload::fibonacci;
