//! One exchange of the proxy with an upstream server. Each state takes the
//! outcome of the work that is done outside and gives what is to be done next.
use crate::config::Config;
use crate::engine::{
    account_for, announce_length, are_credentials_of, check_size, clean_headers,
    cleaned, complete_realm, exceeds, forwarded, is_html, is_reply, kind_of, limit_overflows,
    make_reply, open_request, opt_text, read_failure, redirect_location, rewrites_body,
    route_redirect, send_failure, with_absolute_realm, HeaderOverflow,
    ProviderKind, Reply, Route, SizeCheck, UpstreamRequest, MAX_REDIRECTS,
};
use crate::headers::{
    appended, first_text, grouped, header_contents, line_views, no_headers, ROOMY,
};
use crate::number::decimal;
use axum::http::HeaderMap;
use vstd::prelude::*;

verus! {

/// An exchange that waits for the upstream server to answer.
pub struct Asked {
    depth: u8,
    provider: Option<ProviderKind>,
    request: HeaderMap,
}

/// How an exchange begins.
pub enum Opening {
    /// The upstream server is to be asked.
    Ask(Asked, UpstreamRequest),
    /// The proxy answers at once.
    Reply(Reply),
}

/// An exchange that waits for the provider to adapt the headers of the answer.
pub struct Adapting {
    depth: u8,
    provider: Option<ProviderKind>,
    request: HeaderMap,
}

/// What becomes of the head of an upstream answer.
pub enum Reception {
    /// The provider, if there is one, is to adapt the headers.
    Adapt(Adapting, HeaderMap),
    /// The proxy answers in the upstream server's place.
    Reply(Reply),
    /// The size limit in bytes does not fit in 64 bits.
    LimitOverflow,
    /// The headers have no room in a map of their own.
    HeaderOverflow,
}

/// An exchange that waits to hear who claims the location of a redirect.
pub struct Redirecting {
    depth: u8,
    provider: Option<ProviderKind>,
    headers: HeaderMap,
}

/// An exchange whose answer goes to the client.
pub struct Answering {
    rewrites: bool,
    headers: HeaderMap,
}

/// How an exchange goes on once the headers are adapted.
pub enum Continuation {
    /// The answer redirects to a location.
    Redirect(Redirecting, String),
    /// The answer goes to the client.
    Answer(Answering),
}

/// Where a redirect leads.
pub enum Direction {
    /// To the client.
    Answer(Answering),
    /// To another URL, which a further exchange asks at the given depth and
    /// through the provider of the given kind that claims it.
    Follow { url: String, depth: u8, provider: Option<ProviderKind> },
    /// The new location has no room among the headers.
    HeaderOverflow,
}

/// Whether an exchange is begun as its depth demands: it is admitted at that
/// depth, or refused because it has been redirected too often.
pub open spec fn begins_at(opening: Opening, depth: u8) -> bool {
    match opening {
        Opening::Ask(asked, _) => depth < MAX_REDIRECTS && asked.depth() == depth,
        Opening::Reply(reply) => depth >= MAX_REDIRECTS && is_reply(
            reply,
            508,
            "Too many redirects."@,
        ),
    }
}

/// Whether a redirect that is followed leads one redirect deeper.
pub open spec fn leads_deeper(direction: Direction, depth: u8) -> bool {
    direction matches Direction::Follow { depth: next, .. } ==> next == depth + 1 && next
        <= MAX_REDIRECTS
}

/// Begins an exchange: asks the upstream server, or refuses a request that has
/// been redirected too often.
pub fn open(
    depth: u8,
    provider: Option<ProviderKind>,
    request: HeaderMap,
    url: &str,
    host: &Option<String>,
    config: &Config,
) -> (r: Opening)
    ensures
        begins_at(r, depth),
        r matches Opening::Ask(asked, upstream) ==> asked.provider() == provider && asked.request()
            == header_contents(request) && grouped(line_views(upstream.lines@)) == forwarded(
            header_contents(request),
            opt_text(*host),
        ) && are_credentials_of(
            upstream.credentials,
            account_for(header_contents(request), url@, config.docker.registries@),
        ),
{
    match open_request(depth, &request, url, host, config) {
        Ok(upstream) => Opening::Ask(Asked { depth, provider, request }, upstream),
        Err(reply) => Opening::Reply(reply),
    }
}

/// Begins the exchange that follows a redirect. The target is asked without any
/// header of the client's.
pub fn follow(depth: u8, provider: Option<ProviderKind>, url: &str, config: &Config) -> (r: Opening)
    ensures
        begins_at(r, depth),
        r matches Opening::Ask(asked, upstream) ==> asked.provider() == provider && asked.request()
            == no_headers() && grouped(line_views(upstream.lines@)) == no_headers()
            && are_credentials_of(
            upstream.credentials,
            account_for(no_headers(), url@, config.docker.registries@),
        ),
{
    assert(forwarded(no_headers(), None) =~= no_headers());
    open(depth, provider, HeaderMap::new(), url, &None, config)
}

impl Asked {
    #[verifier::type_invariant]
    spec fn is_admitted(self) -> bool {
        self.depth < MAX_REDIRECTS
    }

    /// How many redirects led to the exchange.
    pub closed spec fn depth(self) -> u8 {
        self.depth
    }

    /// The kind of the provider that the exchange goes through.
    pub closed spec fn provider(self) -> Option<ProviderKind> {
        self.provider
    }

    /// The headers of the client's request.
    pub closed spec fn request(self) -> Map<Seq<char>, Seq<Seq<u8>>> {
        header_contents(self.request)
    }

    /// The upstream server could not be reached.
    pub fn failed(self, error: &str) -> (r: Reply)
        ensures
            is_reply(r, 500, "server error "@ + error@),
    {
        send_failure(error)
    }

    /// The upstream server has answered with the given headers.
    pub fn received(self, headers: &HeaderMap, config: &Config) -> (r: Reception)
        ensures
            r is LimitOverflow <==> limit_overflows(
                header_contents(*headers),
                config.request_limit.limit_size,
            ),
            r is Reply <==> !limit_overflows(
                header_contents(*headers),
                config.request_limit.limit_size,
            ) && exceeds(header_contents(*headers), config.request_limit.limit_size),
            r matches Reception::Reply(reply) ==> is_reply(reply, 413, "File too large."@),
            r matches Reception::Adapt(adapting, passed) ==> adapting.depth() == self.depth()
                && adapting.provider() == self.provider() && adapting.request() == self.request()
                && header_contents(passed) == cleaned(header_contents(*headers)),
            r is HeaderOverflow ==> header_contents(*headers).dom().len() > ROOMY,
    {
        proof {
            use_type_invariant(&self);
        }
        match check_size(headers, config.request_limit.limit_size) {
            SizeCheck::LimitOverflow => Reception::LimitOverflow,
            SizeCheck::TooLarge => Reception::Reply(make_reply(413, "File too large.")),
            SizeCheck::Passes => match clean_headers(headers) {
                Ok(passed) => Reception::Adapt(
                    Adapting {
                        depth: self.depth,
                        provider: self.provider,
                        request: self.request,
                    },
                    passed,
                ),
                Err(_) => Reception::HeaderOverflow,
            },
        }
    }
}

impl Adapting {
    #[verifier::type_invariant]
    spec fn is_admitted(self) -> bool {
        self.depth < MAX_REDIRECTS
    }

    /// How many redirects led to the exchange.
    pub closed spec fn depth(self) -> u8 {
        self.depth
    }

    /// The kind of the provider that the exchange goes through.
    pub closed spec fn provider(self) -> Option<ProviderKind> {
        self.provider
    }

    /// The headers of the client's request.
    pub closed spec fn request(self) -> Map<Seq<char>, Seq<Seq<u8>>> {
        header_contents(self.request)
    }

    /// The provider has adapted the headers of the answer. A relative realm in
    /// them is completed by the host that the client asked.
    pub fn adapted(self, headers: HeaderMap) -> (r: Continuation)
        ensures
            ({
                let completed = with_absolute_realm(header_contents(headers), self.request());
                match r {
                    Continuation::Redirect(redirecting, location) => first_text(
                        completed,
                        "location"@,
                    ) == Some(location@) && redirecting.headers() == completed
                        && redirecting.depth() == self.depth() && redirecting.provider()
                        == self.provider(),
                    Continuation::Answer(answering) => first_text(completed, "location"@) is None
                        && answering.headers() == completed && answering.rewrites() == (
                    self.provider() is Some && is_html(completed)),
                }
            }),
    {
        proof {
            use_type_invariant(&self);
        }
        let mut headers: HeaderMap = headers;
        complete_realm(&mut headers, &self.request);
        match redirect_location(&headers) {
            Some(location) => Continuation::Redirect(
                Redirecting { depth: self.depth, provider: self.provider, headers },
                location,
            ),
            None => Continuation::Answer(
                Answering { rewrites: rewrites_body(&headers, self.provider.is_some()), headers },
            ),
        }
    }
}

impl Redirecting {
    #[verifier::type_invariant]
    spec fn is_admitted(self) -> bool {
        self.depth < MAX_REDIRECTS
    }

    /// How many redirects led to the exchange.
    pub closed spec fn depth(self) -> u8 {
        self.depth
    }

    /// The kind of the provider that the exchange goes through.
    pub closed spec fn provider(self) -> Option<ProviderKind> {
        self.provider
    }

    /// The headers of the answer.
    pub closed spec fn headers(self) -> Map<Seq<char>, Seq<Seq<u8>>> {
        header_contents(self.headers)
    }

    /// It is known whether an explicit provider and whether a browsing provider
    /// claims the location.
    pub fn claimed(self, explicit_claims: bool, web_claims: bool) -> (r: Direction)
        ensures
            leads_deeper(r, self.depth()),
            match first_text(self.headers(), "location"@) {
                None => r matches Direction::Answer(answering) && answering.headers()
                    == self.headers() && answering.rewrites() == (self.provider() is Some
                    && is_html(self.headers())),
                Some(location) => if kind_of(self.provider()) is Explicit {
                    if "http"@.is_prefix_of(location) {
                        r matches Direction::Follow { url, provider, .. } && url@ == location
                            && provider == (if explicit_claims {
                            Some(ProviderKind::Explicit)
                        } else {
                            None
                        })
                    } else {
                        r matches Direction::Answer(answering) && answering.headers()
                            == self.headers() && answering.rewrites() == (self.provider() is Some
                            && is_html(self.headers()))
                    }
                } else if explicit_claims || web_claims {
                    let inside = self.headers().insert(
                        "location"@,
                        seq![vstd::utf8::encode_utf8("/"@ + location)],
                    );
                    match r {
                        Direction::Answer(answering) => answering.headers() == inside
                            && answering.rewrites() == is_html(inside),
                        Direction::HeaderOverflow => self.headers().dom().len() > ROOMY
                            && self.headers()["location"@].len() > 1,
                        _ => false,
                    }
                } else {
                    r matches Direction::Follow { url, provider, .. } && url@ == location
                        && provider is None
                },
            },
    {
        proof {
            use_type_invariant(&self);
        }
        let provider: Option<ProviderKind> = self.provider;
        let mut headers: HeaderMap = self.headers;
        match route_redirect(&mut headers, provider, self.depth, explicit_claims, web_claims) {
            Route::Answer => Direction::Answer(
                Answering { rewrites: rewrites_body(&headers, provider.is_some()), headers },
            ),
            Route::Follow { url, depth, provider: next } => Direction::Follow {
                url,
                depth,
                provider: next,
            },
            Route::HeaderOverflow => Direction::HeaderOverflow,
        }
    }
}

impl Answering {
    /// Whether the provider is to be offered the body.
    pub closed spec fn rewrites(self) -> bool {
        self.rewrites
    }

    /// The headers of the answer.
    pub closed spec fn headers(self) -> Map<Seq<char>, Seq<Seq<u8>>> {
        header_contents(self.headers)
    }

    /// Whether the body is to be read as a whole and offered to the provider.
    pub fn wants_body(&self) -> (r: bool)
        ensures
            r == self.rewrites(),
    {
        self.rewrites
    }

    /// The body could not be read.
    pub fn unreadable(self, error: &str) -> (r: Reply)
        ensures
            is_reply(r, 500, "read error "@ + error@),
    {
        read_failure(error)
    }

    /// The headers of an answer whose body goes to the client as it came.
    pub fn unchanged(self) -> (r: HeaderMap)
        ensures
            header_contents(r) == self.headers(),
    {
        self.headers
    }

    /// The headers of an answer whose body the provider has rewritten to the
    /// given length.
    pub fn rewritten(self, len: usize) -> (r: Result<HeaderMap, HeaderOverflow>)
        ensures
            r matches Ok(headers) ==> header_contents(headers) == appended(
                self.headers(),
                "content-length"@,
                vstd::utf8::encode_utf8(decimal(len as nat)),
            ),
            self.headers().dom().len() <= ROOMY ==> r is Ok,
    {
        let mut headers: HeaderMap = self.headers;
        match announce_length(&mut headers, len) {
            Ok(_) => Ok(headers),
            Err(e) => Err(e),
        }
    }
}

} // verus!
