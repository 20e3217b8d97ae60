//! Data shapes of the transaction submission API. The transport itself
//! (HTTP routing, JSON bodies, wire status codes) lives outside the engine;
//! these types hold what the coordinator's logic reads. The message payload
//! delivered to participants never enters the engine: the transport keeps
//! it and pushes it alongside the identifier the engine hands back.
use vstd::prelude::*;

verus! {

/// One participant addressed by a message: the service name, and an
/// optional subpath under the service's base address for the push.
pub struct MessageConfig {
    pub name: String,
    pub subpath: Option<String>,
}

/// One message of a transaction: the participants it fans out to.
pub struct TransactionMessage {
    pub services: Vec<MessageConfig>,
}

/// A submitted transaction: its messages, and an optional caller-supplied
/// correlation identifier, which the engine carries but never interprets.
pub struct TransactionInfo {
    pub messages: Vec<TransactionMessage>,
    pub external_uuid: Option<String>,
}

pub struct MessageConfigView {
    pub name: Seq<char>,
    pub subpath: Option<Seq<char>>,
}

pub struct TransactionMessageView {
    pub services: Seq<MessageConfigView>,
}

pub struct TransactionInfoView {
    pub messages: Seq<TransactionMessageView>,
    pub external_uuid: Option<Seq<char>>,
}

impl View for MessageConfig {
    type V = MessageConfigView;

    open spec fn view(&self) -> MessageConfigView {
        MessageConfigView {
            name: self.name@,
            subpath: match self.subpath {
                Some(p) => Some(p@),
                None => None,
            },
        }
    }
}

impl View for TransactionMessage {
    type V = TransactionMessageView;

    open spec fn view(&self) -> TransactionMessageView {
        TransactionMessageView { services: self.services@.map_values(|c: MessageConfig| c@) }
    }
}

impl View for TransactionInfo {
    type V = TransactionInfoView;

    open spec fn view(&self) -> TransactionInfoView {
        TransactionInfoView {
            messages: self.messages@.map_values(|m: TransactionMessage| m@),
            external_uuid: match self.external_uuid {
                Some(u) => Some(u@),
                None => None,
            },
        }
    }
}

/// The participant names of one message, in declaration order.
pub open spec fn message_names(m: TransactionMessageView) -> Seq<Seq<char>> {
    m.services.map_values(|c: MessageConfigView| c.name)
}

/// Every participant name across every message, flattened in declaration
/// order; duplicates are kept.
pub open spec fn service_names(msgs: Seq<TransactionMessageView>) -> Seq<Seq<char>>
    decreases msgs.len(),
{
    if msgs.len() == 0 {
        Seq::empty()
    } else {
        message_names(msgs[0]) + service_names(msgs.drop_first())
    }
}

pub proof fn lemma_service_names_take(msgs: Seq<TransactionMessageView>, i: int)
    requires
        0 <= i < msgs.len(),
    ensures
        service_names(msgs.take(i + 1)) == service_names(msgs.take(i)) + message_names(msgs[i]),
    decreases i,
{
    if i == 0 {
        assert(msgs.take(1)[0] == msgs[0]);
        assert(msgs.take(1).drop_first() =~= Seq::<TransactionMessageView>::empty());
        assert(msgs.take(0) =~= Seq::<TransactionMessageView>::empty());
        assert(service_names(msgs.take(1)) =~= service_names(msgs.take(0)) + message_names(
            msgs[0],
        ));
    } else {
        lemma_service_names_take(msgs.drop_first(), i - 1);
        assert(msgs.take(i + 1)[0] == msgs[0]);
        assert(msgs.take(i)[0] == msgs[0]);
        assert(msgs.take(i + 1).drop_first() =~= msgs.drop_first().take(i));
        assert(msgs.take(i).drop_first() =~= msgs.drop_first().take(i - 1));
        assert(msgs.drop_first()[i - 1] == msgs[i]);
        assert(message_names(msgs[0]) + (service_names(msgs.drop_first().take(i - 1))
            + message_names(msgs[i])) =~= (message_names(msgs[0]) + service_names(
            msgs.drop_first().take(i - 1),
        )) + message_names(msgs[i]));
    }
}

} // verus!
