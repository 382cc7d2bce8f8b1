//! A parser for the invocations of `curl` that browsers hand out under
//! "copy as cURL": the url, the cookies, the headers, the raw body and the
//! flags of one invocation, as slices of the text that was parsed.
mod encoding;
pub mod error;
pub mod grammar;
pub mod laws;
pub mod parser;
pub mod record;
pub mod roundtrip;
pub mod strmap;
pub mod token;

pub use error::{ErrorClass, ErrorKind, ParseError};
pub use parser::{
    any_option, command, cookie_pairs, flag_name, key, option_lead, options_, options_data_raw,
    options_header_, options_header_cookie, quoted, text_curl,
};
pub use record::{Curl, CurlOption};
pub use strmap::StrMap;
