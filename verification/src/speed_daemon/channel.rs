//! The channel that carries tickets to the connection of a dispatcher.

use crate::speed_daemon::controller::Ticket;
use tokio::sync::mpsc::UnboundedSender;
use vstd::prelude::*;

verus! {

/// The sending half of an unbounded channel of `tokio`.
#[verifier::external_type_specification]
#[verifier::external_body]
#[verifier::reject_recursive_types(T)]
pub struct ExUnboundedSender<T>(UnboundedSender<T>);

/// Hands `ticket` to the channel, by `UnboundedSender::send`. The send never
/// waits. Where the receiving half is closed or gone, the channel takes
/// nothing and the ticket comes back as it went in; nothing else is claimed
/// here, and nothing of what the receiver does with a ticket.
#[verifier::external_body]
pub(crate) fn send_ticket(sender: &UnboundedSender<Ticket>, ticket: Ticket) -> (bounced: Option<
    Ticket,
>)
    ensures
        bounced matches Some(t) ==> t == ticket,
{
    match sender.send(ticket) {
        Ok(()) => None,
        Err(refused) => Some(refused.0),
    }
}

} // verus!
