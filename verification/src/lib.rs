//! Length-prefixed framing protocol for driving a script engine over a byte
//! pipe: a fixed-size header codec, an incremental frame decoder, the tagged
//! message model with its op-code rules, the outgoing encoder with its
//! request-id allocator, and the request/response correlation step.

pub mod byte_utils;
pub mod decoder;
pub mod error;
pub mod json;
pub mod message;

use vstd::prelude::*;

use crate::message::{Header, IncomingMessage, IncomingResponse};

verus! {

/// An error reported while registering scripts.
#[derive(Debug)]
pub struct JsError;

/// The scripts registered for a channel: endpoint pre- and post-function
/// bodies, and the shared context source text.
pub struct JsFunctions {
    pub pre_fns: Vec<String>,
    pub post_fns: Vec<String>,
    pub context: String,
}

impl JsFunctions {
    /// No functions, no context.
    pub fn new() -> (r: JsFunctions)
        ensures
            r.pre_fns@ =~= Seq::<String>::empty(),
            r.post_fns@ =~= Seq::<String>::empty(),
            r.context@ =~= Seq::<char>::empty(),
    {
        JsFunctions { pre_fns: Vec::new(), post_fns: Vec::new(), context: String::new() }
    }

    /// Registers an endpoint pre-function body and returns its index.
    pub fn add_endpoint_pre_fn(&mut self, fn_body: String) -> (r: Result<usize, JsError>)
        ensures
            final(self).pre_fns@ == old(self).pre_fns@.push(fn_body),
            final(self).post_fns == old(self).post_fns,
            final(self).context == old(self).context,
            r matches Ok(i) && i == old(self).pre_fns@.len(),
    {
        let i = self.pre_fns.len();
        self.pre_fns.push(fn_body);
        Ok(i)
    }

    /// Registers an endpoint post-function body and returns its index.
    pub fn add_endpoint_post_fn(&mut self, fn_body: String) -> (r: Result<usize, JsError>)
        ensures
            final(self).post_fns@ == old(self).post_fns@.push(fn_body),
            final(self).pre_fns == old(self).pre_fns,
            final(self).context == old(self).context,
            r matches Ok(i) && i == old(self).post_fns@.len(),
    {
        let i = self.post_fns.len();
        self.post_fns.push(fn_body);
        Ok(i)
    }

    /// Replaces the shared context source text.
    pub fn add_context(&mut self, context: String) -> (r: Result<(), JsError>)
        ensures
            final(self).context == context,
            final(self).pre_fns == old(self).pre_fns,
            final(self).post_fns == old(self).post_fns,
            r is Ok,
    {
        self.context = context;
        Ok(())
    }
}

/// The correlation step of the channel driver: a decoded frame answers the
/// request with id `request_id` exactly when it carries an incoming response
/// under that same id; every other frame is passed over (`None`).
pub fn match_response(request_id: u64, header: &Header, message: IncomingMessage) -> (r: Option<
    IncomingResponse,
>)
    ensures
        (r is Some) == (header.id == request_id && message is IncomingResponse),
        r matches Some(resp) ==> message == IncomingMessage::IncomingResponse(resp),
{
    match message {
        IncomingMessage::IncomingResponse(resp) => {
            if header.id == request_id {
                Some(resp)
            } else {
                None
            }
        },
        _ => None,
    }
}

} // verus!
