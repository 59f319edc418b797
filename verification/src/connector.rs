//! The command channel between the broker and the exchange connector.

use crate::broker::{StreamId, SymbolKey};
use crossbeam_channel::{Receiver, SendError, Sender};
use vstd::prelude::*;

verus! {

/// Commands sent from the broker to the pinned exchange connector.
pub enum ConnectorCmd {
    /// Begin the physical subscription of a stream.
    Subscribe(SymbolKey),
    /// End the physical subscription of a stream.
    Unsubscribe(SymbolKey),
}

/// A command, as plain values.
pub enum Intent {
    Begin(StreamId),
    End(StreamId),
}

impl View for ConnectorCmd {
    type V = Intent;

    open spec fn view(&self) -> Intent {
        match self {
            ConnectorCmd::Subscribe(key) => Intent::Begin(key@),
            ConnectorCmd::Unsubscribe(key) => Intent::End(key@),
        }
    }
}

/// The sending end of a `crossbeam_channel` channel; nothing of its inside is
/// visible to the proofs.
#[verifier::external_type_specification]
#[verifier::external_body]
#[verifier::reject_recursive_types(T)]
pub struct ExSender<T>(Sender<T>);

/// The receiving end of a `crossbeam_channel` channel; nothing of its inside
/// is visible to the proofs.
#[verifier::external_type_specification]
#[verifier::external_body]
#[verifier::reject_recursive_types(T)]
pub struct ExReceiver<T>(Receiver<T>);

/// The error of `Sender::send`, which hands the message back.
#[verifier::external_type_specification]
#[verifier::external_body]
#[verifier::reject_recursive_types(T)]
pub struct ExSendError<T>(SendError<T>);

/// `crossbeam_channel::unbounded` makes the two ends of a channel without a
/// capacity limit. Nothing is claimed of them.
pub assume_specification<T>[ crossbeam_channel::unbounded::<T> ]() -> (ends: (
    Sender<T>,
    Receiver<T>,
));

/// `Sender::send` queues a message, or hands it back in the error when every
/// receiver is gone. Which of the two happens depends on the other end, so
/// nothing is claimed of the result.
pub assume_specification<T>[ Sender::<T>::send ](sender: &Sender<T>, msg: T) -> (sent: Result<
    (),
    SendError<T>,
>);

/// `Sender::clone` makes another sending end of the same channel. Nothing is
/// claimed of it.
pub assume_specification<T>[ <Sender<T> as Clone>::clone ](sender: &Sender<T>) -> (copy: Sender<T>);

/// The broker's end of the command channel to one pinned connector worker.
#[derive(Clone)]
pub struct ExchangeConnector {
    cmd_tx: Sender<ConnectorCmd>,
}

impl ExchangeConnector {
    /// Makes an unbounded command channel and returns the connector that
    /// feeds it together with the end that a worker drains.
    pub fn channel() -> (ends: (ExchangeConnector, Receiver<ConnectorCmd>)) {
        let (cmd_tx, cmd_rx) = crossbeam_channel::unbounded::<ConnectorCmd>();
        (ExchangeConnector { cmd_tx }, cmd_rx)
    }

    /// Sends a command to the pinned worker. A worker that is gone loses the
    /// command silently.
    pub fn send_cmd(&self, cmd: ConnectorCmd) {
        let _ = self.cmd_tx.send(cmd);
    }
}

} // verus!
