use vstd::prelude::*;

verus! {

#[verifier::external_type_specification]
#[verifier::external_body]
#[verifier::reject_recursive_types(T)]
pub struct ExSender<T>(flume::Sender<T>);

/// Relies on flume::Sender::send: queues the payload on the unbounded
/// channel without blocking, failing only when every receiver of the channel
/// is gone. Whether a recipient still listens is external state, so nothing
/// is promised of the outcome.
#[verifier::external_body]
pub(crate) fn send_text(channel: &flume::Sender<String>, payload: &str) -> bool {
    channel.send(payload.to_string()).is_ok()
}

} // verus!
