//! What a receiver makes of the messages that a transport found at a link.
use vstd::prelude::*;
use crate::err::Error;

verus! {

/// The one message among `msgs`. Fails when there is none, and when there
/// is more than one.
pub fn single_message<M>(msgs: Vec<M>) -> (res: Result<M, Error>)
    ensures
        msgs@.len() == 1 ==> res == Ok::<M, Error>(msgs@[0]),
        msgs@.len() == 0 ==> res == Err::<M, Error>(Error::MessageNotFound),
        msgs@.len() > 1 ==> res == Err::<M, Error>(Error::MoreThanOneMessage),
{
    let mut msgs = msgs;
    match msgs.pop() {
        Some(msg) => {
            if msgs.is_empty() {
                Ok(msg)
            } else {
                Err(Error::MoreThanOneMessage)
            }
        },
        None => Err(Error::MessageNotFound),
    }
}

} // verus!
