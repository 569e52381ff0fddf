//! Core of a time-boxed blob store: a day-bucketed deletion ledger,
//! a probabilistic identifier allocator, and an in-memory TTL cache,
//! kept consistent by startup and recurring sweeps.
use vstd::prelude::*;

pub mod cache;
pub mod clock;
pub mod codec;
pub mod date;
pub mod idgen;
pub mod ledger;
pub mod param_guards;
pub mod record;
pub mod request_guards;
pub mod strutil;

verus! {

/// The usage text served at the root route.
pub fn index() -> (r: &'static str)
    ensures
        r@ == "
    USAGE

      POST /

          accepts raw data in the body of the request and responds with a URL of
          a page containing the body's content

      GET /<id>

          retrieves the content for the paste with id `<id>`
    "@,
{
    "
    USAGE

      POST /

          accepts raw data in the body of the request and responds with a URL of
          a page containing the body's content

      GET /<id>

          retrieves the content for the paste with id `<id>`
    "
}

pub open spec fn lit_upload() -> Seq<char> {
    seq!['u', 'p', 'l', 'o', 'a', 'd', '/']
}

/// Where the blob for a given key is stored: one file per key, flat
/// namespace.
pub fn upload_file_path(id: &str) -> (r: String)
    ensures
        r@ == lit_upload() + id@,
{
    let mut s = String::from_str("upload/");
    proof {
        reveal_strlit("upload/");
        assert("upload/"@ =~= lit_upload());
    }
    s.append(id);
    s
}

/// The URL a fresh paste is served under.
pub fn paste_url(host: &str, id: &str) -> (r: String)
    ensures
        r@ == host@ + seq!['/'] + id@,
{
    let mut s = host.to_owned();
    s.append("/");
    proof {
        reveal_strlit("/");
        assert("/"@ =~= seq!['/']);
        assert(host@ + "/"@ =~= host@ + seq!['/']);
    }
    s.append(id);
    proof {
        assert(s@ =~= host@ + seq!['/'] + id@);
    }
    s
}

/// Service-wide configuration exposed to request handlers.
pub struct CustomConfig {
    pub exposable_url: String,
}

impl CustomConfig {
    /// Picks the externally visible URL: the configured one when present,
    /// the local default otherwise.
    pub fn new(configured_url: Option<String>) -> (r: Self)
        ensures
            configured_url is Some ==> r.exposable_url@ == configured_url->0@,
            configured_url is None ==> r.exposable_url@ == "http://localhost:8000"@,
    {
        match configured_url {
            Some(u) => CustomConfig { exposable_url: u },
            None => CustomConfig { exposable_url: String::from_str("http://localhost:8000") },
        }
    }
}

} // verus!
