//! What the server answers to a request, method by method.

use crate::headers::{has_name_ignore_case, lemma_lookup_ignore_case, lookup_ignore_case};
use crate::response::{Response, SipResponse};
use crate::sip_parser::{Method, Request, SipMessage, SipMessageType};
use vstd::prelude::*;
use vstd::slice::slice_to_vec;

verus! {

/// The view of an optional response.
pub open spec fn reply_view(r: Option<SipResponse>) -> Option<Response> {
    match r {
        Some(resp) => Some(resp@),
        None => None,
    }
}

/// The handling of the requests of some methods.
///
/// A policy says which methods it covers and, for a request of such a
/// method, which response, if any, goes back. New methods are served by new
/// implementations; `OrElse` puts two policies together.
pub trait MethodPolicy {
    /// Whether the policy covers `method`.
    spec fn covers(&self, method: Method) -> bool;

    /// The response that the policy gives to `request`.
    spec fn decision(&self, request: Request) -> Option<Response>;

    /// Tells whether the policy covers `method`.
    fn handles(&self, method: &SipMessageType) -> (b: bool)
        ensures
            b == self.covers(method@),
    ;

    /// Decides on a request of a covered method.
    fn respond(&self, message: &SipMessage) -> (r: Option<SipResponse>)
        requires
            message.headers.wf(),
            self.covers(message.message_type@),
        ensures
            reply_view(r) == self.decision(message@),
            r matches Some(resp) ==> resp.headers.wf(),
    ;
}

/// The header name `Authorization`.
pub open spec fn authorization_name() -> Seq<u8> {
    seq![65u8, 117u8, 116u8, 104u8, 111u8, 114u8, 105u8, 122u8, 97u8, 116u8, 105u8, 111u8, 110u8]
}

/// The reason phrase `Unauthorized`.
pub open spec fn unauthorized_reason() -> Seq<u8> {
    seq![85u8, 110u8, 97u8, 117u8, 116u8, 104u8, 111u8, 114u8, 105u8, 122u8, 101u8, 100u8]
}

/// Whether the request carries an `Authorization` field, whatever its
/// value and however the name's letters are cased.
pub open spec fn has_authorization(request: Request) -> bool {
    lookup_ignore_case(request.headers, authorization_name()) is Some
}

/// The answer to a REGISTER request: nothing where credentials are
/// present, else `401 Unauthorized` with the request's own header fields and
/// no body.
pub open spec fn register_decision(request: Request) -> Option<Response> {
    if has_authorization(request) {
        None
    } else {
        Some(
            Response {
                status_code: 401,
                reason_phrase: unauthorized_reason(),
                headers: request.headers,
                body: None,
            },
        )
    }
}

/// A REGISTER request that carries an `Authorization` field, with whatever
/// value, gets no response from this server.
pub proof fn lemma_register_with_credentials(request: Request)
    requires
        request.method is Register,
        has_name_ignore_case(request.headers, authorization_name()),
    ensures
        request_policy(request) is None,
{
    lemma_lookup_ignore_case(request.headers, authorization_name());
}

/// A REGISTER request without an `Authorization` field is answered with
/// `401 Unauthorized`, and the response carries the request's header fields
/// unchanged and no body.
pub proof fn lemma_register_without_credentials(request: Request)
    requires
        request.method is Register,
        !has_name_ignore_case(request.headers, authorization_name()),
    ensures
        request_policy(request) matches Some(response) && response.status_code == 401
            && response.reason_phrase == unauthorized_reason() && response.headers
            == request.headers && response.body is None,
{
    lemma_lookup_ignore_case(request.headers, authorization_name());
}

/// The policy for REGISTER: a request without credentials is refused.
pub struct RegisterPolicy;

impl MethodPolicy for RegisterPolicy {
    open spec fn covers(&self, method: Method) -> bool {
        method is Register
    }

    open spec fn decision(&self, request: Request) -> Option<Response> {
        register_decision(request)
    }

    fn handles(&self, method: &SipMessageType) -> (b: bool) {
        match method {
            SipMessageType::REGISTER => true,
            _ => false,
        }
    }

    fn respond(&self, message: &SipMessage) -> (r: Option<SipResponse>) {
        let name: [u8; 13] = [65, 117, 116, 104, 111, 114, 105, 122, 97, 116, 105, 111, 110];
        let reason: [u8; 12] = [85, 110, 97, 117, 116, 104, 111, 114, 105, 122, 101, 100];
        proof {
            assert(name@ =~= authorization_name());
            assert(reason@ =~= unauthorized_reason());
        }
        match message.headers.get_ignore_case(name.as_slice()) {
            Some(_) => None,
            None => Some(
                SipResponse {
                    status_code: 401,
                    reason_phrase: slice_to_vec(reason.as_slice()),
                    headers: message.headers.clone(),
                    body: None,
                },
            ),
        }
    }
}

/// Two policies as one: `first` decides where it covers the method,
/// `second` where only it does.
pub struct OrElse<A, B> {
    pub first: A,
    pub second: B,
}

impl<A: MethodPolicy, B: MethodPolicy> MethodPolicy for OrElse<A, B> {
    open spec fn covers(&self, method: Method) -> bool {
        self.first.covers(method) || self.second.covers(method)
    }

    open spec fn decision(&self, request: Request) -> Option<Response> {
        if self.first.covers(request.method) {
            self.first.decision(request)
        } else {
            self.second.decision(request)
        }
    }

    fn handles(&self, method: &SipMessageType) -> (b: bool) {
        self.first.handles(method) || self.second.handles(method)
    }

    fn respond(&self, message: &SipMessage) -> (r: Option<SipResponse>) {
        if self.first.handles(&message.message_type) {
            self.first.respond(message)
        } else {
            self.second.respond(message)
        }
    }
}

/// What `policy` answers to `request`: its decision where it covers the
/// method, nothing otherwise.
pub open spec fn dispatch_decision<P: MethodPolicy>(policy: P, request: Request) -> Option<
    Response,
> {
    if policy.covers(request.method) {
        policy.decision(request)
    } else {
        None
    }
}

/// Hands a request to `policy` if the policy covers its method.
pub fn dispatch<P: MethodPolicy>(policy: &P, message: &SipMessage) -> (r: Option<SipResponse>)
    requires
        message.headers.wf(),
    ensures
        reply_view(r) == dispatch_decision(*policy, message@),
        r matches Some(resp) ==> resp.headers.wf(),
{
    if policy.handles(&message.message_type) {
        policy.respond(message)
    } else {
        None
    }
}

/// The answer of this server to a request: REGISTER goes to
/// `register_decision`, no other method has a policy.
pub open spec fn request_policy(request: Request) -> Option<Response> {
    if request.method is Register {
        register_decision(request)
    } else {
        None
    }
}

/// Decides on a request with the policies of this server.
pub fn handle(message: &SipMessage) -> (r: Option<SipResponse>)
    requires
        message.headers.wf(),
    ensures
        reply_view(r) == request_policy(message@),
        r matches Some(resp) ==> resp.headers.wf(),
{
    dispatch(&RegisterPolicy, message)
}

} // verus!
