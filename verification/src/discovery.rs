//! Discovery of the interests of a consumer.

use vstd::prelude::*;
use crate::interest;
use crate::interest::{GatewayState, NewInterest};
use crate::layers;
use crate::text;

verus! {

/// Takes one reply to the query for a consumer's interests and registers the topics that it
/// lists. Returns the topics that are new for the consumer.
///
/// The consumer answers at the key that `keyspace::interest_key` gives. That its interests
/// are pulled once only is the caller's part (see `GatewayState::mark_pulling`).
pub fn pull_consumer_interests<H>(
    client_id: &str,
    reply: &[u8],
    state: &mut GatewayState<H>,
) -> (added: Vec<NewInterest>)
    requires
        old(state).wf(),
    ensures
        final(state).wf(),
        final(state).interests() == interest::registered(
            old(state).interests(),
            client_id@,
            text::list_items(text::lossy_text(reply@), ','),
        ),
        final(state).cluster == old(state).cluster,
        final(state).pulling_consumers == old(state).pulling_consumers,
        final(state).active_subscribers == old(state).active_subscribers,
        interest::names_interests(
            added@,
            interest::new_topics(
                layers::at(old(state).interests(), client_id@),
                text::list_items(text::lossy_text(reply@), ','),
            ),
        ),
{
    let topics = text::decode_lossy(reply);
    state.register_interests(client_id, topics.as_str())
}

} // verus!
