//! The per-request orchestrator: pick an upstream by the route table, strip
//! the matched context from the request path, buffer the response body, and
//! rewrite it whole once the stream ends, falling back to the untouched
//! bytes when rewriting fails.

use vstd::prelude::*;
use crate::bytes_util::{bytes_eq, is_prefix_of, matches_at, push_all, push_range};
use crate::config::{find_route_spec, Config, Route};
use crate::html_processor::{doc_ids, is_parseable, HtmlProcessor};
use crate::id_mapping::IdMapping;
use crate::rewrite::{pairs_of, rewrite_seq};

verus! {

/// A request-time routing failure, surfaced to the client as a request
/// failure and never retried.
#[derive(Clone, Copy, Debug, PartialEq, Eq, Structural)]
pub enum ProxyError {
    /// No configured route's context is a prefix of the request path.
    NoRouteMatch,
    /// The matched route's target URL does not resolve to a host.
    InvalidTarget,
}

/// Whether `url::Url::parse` accepts the target text and reports a host for
/// it. Parsing is deterministic: a function of the bytes alone.
pub uninterp spec fn target_resolves(target: Seq<u8>) -> bool;

/// The host `url::Url::host_str` reports for the target.
pub uninterp spec fn target_host(target: Seq<u8>) -> Seq<u8>;

/// The explicit port `url::Url::port` reports, when the target names one.
pub uninterp spec fn target_port(target: Seq<u8>) -> Option<u16>;

/// The scheme `url::Url::scheme` reports for the target.
pub uninterp spec fn target_scheme(target: Seq<u8>) -> Seq<u8>;

/// Relies on `url::Url::parse`, `Url::host_str`, `Url::port` and
/// `Url::scheme`: parsing is deterministic in the text, `host_str` reports
/// `None` exactly for host-less URLs, `port` reports the port the URL names
/// (and none when the URL names no port or its scheme's known default), and
/// `scheme` reports the URL's scheme. A target that is not valid text does
/// not parse.
#[verifier::external_body]
fn parse_target(target: &[u8]) -> (r: Option<(Vec<u8>, Option<u16>, Vec<u8>)>)
    ensures
        (r is Some) == target_resolves(target@),
        r matches Some(p) ==> p.0@ == target_host(target@) && p.1 == target_port(target@) && p.2@
            == target_scheme(target@),
{
    let text = core::str::from_utf8(target).ok()?;
    let parsed = url::Url::parse(text).ok()?;
    let host = parsed.host_str()?.as_bytes().to_vec();
    Some((host, parsed.port(), parsed.scheme().as_bytes().to_vec()))
}

/// The bytes of the encrypted scheme name, `https`.
pub open spec fn https_scheme() -> Seq<u8> {
    seq![104u8, 116u8, 116u8, 112u8, 115u8]
}

/// The bytes of `https` as a vector.
fn https_scheme_vec() -> (r: Vec<u8>)
    ensures
        r@ == https_scheme(),
{
    let v: Vec<u8> = vec![104u8, 116u8, 116u8, 112u8, 115u8];
    proof {
        assert(v@ =~= https_scheme());
    }
    v
}

/// The path sent upstream: the matched context stripped from the front of
/// the request path, and `/` substituted when stripping leaves nothing — a
/// backend never receives an empty path.
pub open spec fn rewritten_path(path: Seq<u8>, context: Seq<u8>) -> Seq<u8> {
    let stripped = if is_prefix_of(context, path) {
        path.skip(context.len() as int)
    } else {
        path
    };
    if stripped.len() == 0 {
        seq![47u8]
    } else {
        stripped
    }
}

/// The upstream port: the target's explicit port when it names one, else
/// 443 for the encrypted scheme and 80 otherwise.
pub open spec fn effective_port(target: Seq<u8>) -> u16 {
    match target_port(target) {
        Some(p) => p,
        None => if target_scheme(target) == https_scheme() {
            443u16
        } else {
            80u16
        },
    }
}

/// Strip `context` from the front of `path` when it is a prefix, and
/// substitute `/` when nothing remains.
pub fn strip_context(path: &[u8], context: &[u8]) -> (r: Vec<u8>)
    ensures
        r@ == rewritten_path(path@, context@),
{
    let mut out: Vec<u8> = Vec::new();
    if matches_at(path, 0, context) {
        proof {
            assert(path@.subrange(0, context@.len() as int) =~= path@.take(context@.len() as int));
        }
        push_range(&mut out, path, context.len(), path.len());
        proof {
            assert(path@.subrange(context@.len() as int, path@.len() as int) =~= path@.skip(
                context@.len() as int,
            ));
        }
    } else {
        proof {
            if is_prefix_of(context@, path@) {
                assert(path@.subrange(0, context@.len() as int) =~= path@.take(
                    context@.len() as int,
                ));
                assert(false);
            }
        }
        push_all(&mut out, path);
    }
    if out.len() == 0 {
        out.push(47);
        proof {
            assert(out@ =~= seq![47u8]);
        }
    }
    out
}

/// Where a request goes: the upstream host and port, whether the connection
/// is encrypted, and the rewritten path handed to the backend.
#[derive(Debug)]
pub struct UpstreamSelection {
    pub host: Vec<u8>,
    pub port: u16,
    pub tls: bool,
    pub path: Vec<u8>,
}

/// The phases a request moves through: routing picks the upstream, the body
/// streams into the buffer, the buffered whole is finalized and emitted, and
/// a routing failure ends the request early.
#[derive(Clone, Copy, Debug, PartialEq, Eq, Structural)]
pub enum RequestPhase {
    /// The request arrived and no upstream is chosen yet.
    Routing,
    /// An upstream is chosen; response chunks are being buffered and none
    /// is forwarded downstream.
    StreamingBody,
    /// The single body was emitted; the request is complete.
    Done,
    /// Routing failed; the request is surfaced to the client as a failure.
    Errored,
}

/// Per-request transient state: the accumulating response-body buffer and
/// the request's phase, owned exclusively by one in-flight request and
/// discarded with it.
pub struct MyCtx {
    pub buffer: Vec<u8>,
    pub phase: RequestPhase,
}

/// What a body chunk contributes to the buffer.
pub open spec fn chunk_view(chunk: Option<&[u8]>) -> Seq<u8> {
    match chunk {
        Some(c) => c@,
        None => Seq::<u8>::empty(),
    }
}

/// The proxy: the immutable route table and the rewriting engine with its
/// process-wide mapping store.
pub struct IdObfuscationProxy {
    config: Config,
    processor: HtmlProcessor,
}

impl IdObfuscationProxy {
    /// The proxy's store is well-formed.
    pub closed spec fn wf(self) -> bool {
        self.processor.wf()
    }

    /// The configured route table.
    pub closed spec fn routes(self) -> Seq<Route> {
        self.config.routes@
    }

    /// The mapping store's content: original identifiers to generated ones.
    pub closed spec fn mapping(self) -> Map<Seq<u8>, Seq<u8>> {
        self.processor@
    }

    /// A proxy over the given configuration, with an empty mapping store.
    pub fn new(config: Config) -> (r: Self)
        ensures
            r.wf(),
            r.routes() == config.routes@,
            r.mapping() == Map::<Seq<u8>, Seq<u8>>::empty(),
    {
        let id_mapping = IdMapping::new();
        Self { config, processor: HtmlProcessor::new(id_mapping) }
    }

    /// A fresh context for a new request: an empty body buffer, in the
    /// routing phase.
    pub fn new_ctx(&self) -> (r: MyCtx)
        ensures
            r.buffer@ == Seq::<u8>::empty(),
            r.phase == RequestPhase::Routing,
    {
        MyCtx { buffer: Vec::new(), phase: RequestPhase::Routing }
    }

    /// Resolve the upstream coordinates of a matched route: the target's
    /// host, the effective port, and the request path with the route's
    /// context stripped. Fails exactly when the target does not resolve to
    /// a host.
    pub fn get_target_url(&self, route: &Route, original_path: &[u8]) -> (r: Result<
        (Vec<u8>, u16, Vec<u8>),
        ProxyError,
    >)
        ensures
            (r is Ok) == target_resolves(route.target@),
            r is Err ==> r == Result::<(Vec<u8>, u16, Vec<u8>), ProxyError>::Err(
                ProxyError::InvalidTarget,
            ),
            r matches Ok(t) ==> t.0@ == target_host(route.target@) && t.1 == effective_port(
                route.target@,
            ) && t.2@ == rewritten_path(original_path@, route.context@),
    {
        let parsed = match parse_target(route.target.as_slice()) {
            Some(p) => p,
            None => { return Err(ProxyError::InvalidTarget) },
        };
        let (host, port_opt, scheme) = parsed;
        let https = https_scheme_vec();
        let port: u16 = match port_opt {
            Some(p) => p,
            None => {
                if bytes_eq(scheme.as_slice(), https.as_slice()) {
                    443
                } else {
                    80
                }
            },
        };
        let new_path = strip_context(original_path, route.context.as_slice());
        Ok((host, port, new_path))
    }

    /// The routing decision for a request path: the first matching route's
    /// upstream selection. `NoRouteMatch` comes exactly when no route's
    /// context prefixes the path; `InvalidTarget` exactly when the matched
    /// route's target resolves to no host. A successful decision moves the
    /// request on to body streaming; a failure ends it.
    pub fn upstream_peer(&self, ctx: &mut MyCtx, path: &[u8]) -> (r: Result<
        UpstreamSelection,
        ProxyError,
    >)
        requires
            old(ctx).phase == RequestPhase::Routing,
        ensures
            final(ctx).buffer@ == old(ctx).buffer@,
            r is Ok ==> final(ctx).phase == RequestPhase::StreamingBody,
            r is Err ==> final(ctx).phase == RequestPhase::Errored,
            (find_route_spec(self.routes(), path@) is None) == (r == Result::<
                UpstreamSelection,
                ProxyError,
            >::Err(ProxyError::NoRouteMatch)),
            find_route_spec(self.routes(), path@) matches Some(rt) ==> ((r is Ok)
                == target_resolves(rt.target@)),
            r matches Ok(sel) ==> (find_route_spec(self.routes(), path@) matches Some(rt)
                && sel.host@ == target_host(rt.target@) && sel.port == effective_port(rt.target@)
                && sel.tls == is_prefix_of(https_scheme(), rt.target@) && sel.path@
                == rewritten_path(path@, rt.context@)),
    {
        let route = match self.config.find_route(path) {
            Some(rt) => rt,
            None => {
                ctx.phase = RequestPhase::Errored;
                return Err(ProxyError::NoRouteMatch);
            },
        };
        let result = match self.get_target_url(route, path) {
            Ok(t) => t,
            Err(e) => {
                ctx.phase = RequestPhase::Errored;
                return Err(e);
            },
        };
        ctx.phase = RequestPhase::StreamingBody;
        let (host, port, new_path) = result;
        let https = https_scheme_vec();
        let tls = matches_at(route.target.as_slice(), 0, https.as_slice());
        proof {
            if tls {
                assert(route.target@.take(5) =~= route.target@.subrange(0, 5));
            } else if is_prefix_of(https_scheme(), route.target@) {
                assert(route.target@.subrange(0, 5) =~= route.target@.take(5));
                assert(false);
            }
        }
        Ok(UpstreamSelection { host, port, tls, path: new_path })
    }

    /// The response-body hook. While the stream runs, every chunk is
    /// appended to the request's buffer and nothing is emitted downstream.
    /// On the end-of-stream signal the whole buffered document is rewritten
    /// and emitted as the single body chunk; if rewriting fails, the
    /// original buffered bytes are emitted unchanged — rewriting failure
    /// degrades to pass-through, never to an empty or truncated body.
    pub fn response_body_filter(
        &mut self,
        ctx: &mut MyCtx,
        chunk: Option<&[u8]>,
        end_of_stream: bool,
    ) -> (r: Option<Vec<u8>>)
        requires
            old(self).wf(),
            old(ctx).phase == RequestPhase::StreamingBody,
        ensures
            !end_of_stream ==> final(ctx).phase == RequestPhase::StreamingBody,
            end_of_stream ==> final(ctx).phase == RequestPhase::Done,
            final(self).wf(),
            old(self).mapping().submap_of(final(self).mapping()),
            final(self).routes() == old(self).routes(),
            (r is Some) == end_of_stream,
            !end_of_stream ==> *final(self) == *old(self) && final(ctx).buffer@ == old(
                ctx,
            ).buffer@ + chunk_view(chunk),
            end_of_stream ==> ({
                let full = old(ctx).buffer@ + chunk_view(chunk);
                &&& final(ctx).buffer@ == r.unwrap()@
                &&& (!is_parseable(full) ==> r.unwrap()@ == full && final(self).mapping() == old(
                    self,
                ).mapping())
                &&& (is_parseable(full) ==> r.unwrap()@ == rewrite_seq(
                    full,
                    pairs_of(doc_ids(full), final(self).mapping()),
                ) && (forall|j: int|
                    0 <= j < doc_ids(full).len() ==> final(self).mapping().contains_key(
                        #[trigger] doc_ids(full)[j],
                    )))
            }),
    {
        if let Some(c) = chunk {
            push_all(&mut ctx.buffer, c);
        } else {
            proof {
                assert(ctx.buffer@ =~= old(ctx).buffer@ + chunk_view(chunk));
            }
        }
        if end_of_stream {
            let out = match self.processor.process(ctx.buffer.as_slice()) {
                Ok(processed) => processed,
                Err(_) => {
                    // pass-through fallback: emit the original buffered bytes
                    let mut copy: Vec<u8> = Vec::new();
                    push_all(&mut copy, ctx.buffer.as_slice());
                    copy
                },
            };
            let mut emitted: Vec<u8> = Vec::new();
            push_all(&mut emitted, out.as_slice());
            ctx.buffer = out;
            ctx.phase = RequestPhase::Done;
            proof {
                assert(emitted@ =~= ctx.buffer@);
            }
            Some(emitted)
        } else {
            None
        }
    }
}

} // verus!
