//! Sessions: one per client connection, from opening to closed.
use crate::events::{Delivery, Registration};
use crate::message::{decode_message, parse_message, MessageType, MessageView};
use crate::protocol::{parse_request, response_bytes, ResponseView};
use crate::service::{
    change_key, grants, required_permission, response_message, store_after, store_answer,
    store_events, OriginAttributes, OriginView, SettingsService, SettingsSharedData,
    SETTINGS_SERVICE,
};
use vstd::prelude::*;

verus! {

/// Where a session is in its life.
#[derive(Debug, Clone, Copy, PartialEq, Eq, Structural)]
pub enum SessionState {
    Opening,
    Active,
    Closing,
    Closed,
}

/// What a session hands to its transport.
#[derive(Debug)]
pub enum MessageKind {
    /// A frame for the client, from the given service.
    Data(u32, Vec<u8>),
    /// Close the connection.
    Close,
    /// A backing process died; the connection must close.
    ChildDaemonCrash(String),
}

/// The value a transport message stands for.
pub enum KindView {
    Data(u32, Seq<u8>),
    Close,
    ChildDaemonCrash(Seq<char>),
}

impl View for MessageKind {
    type V = KindView;

    open spec fn view(&self) -> KindView {
        match self {
            MessageKind::Data(s, b) => KindView::Data(*s, b@),
            MessageKind::Close => KindView::Close,
            MessageKind::ChildDaemonCrash(n) => KindView::ChildDaemonCrash(n@),
        }
    }
}

/// Why a message could not be handed to the transport.
#[derive(Debug, Clone, Copy, PartialEq, Eq, Structural)]
pub enum SendMessageError {
    /// The session no longer reaches its client.
    Disconnected,
}

/// The outbound channel of a session: a queue that the transport drains, or
/// a placeholder that drops everything until the transport exists.
pub struct MessageSender {
    connected: bool,
    queue: Vec<MessageKind>,
}

impl MessageSender {
    /// Whether messages reach a transport.
    pub closed spec fn connected(&self) -> bool {
        self.connected
    }

    /// The messages waiting for the transport, oldest first.
    pub closed spec fn pending(&self) -> Seq<KindView> {
        self.queue@.map_values(|m: MessageKind| m@)
    }

    /// The placeholder used while the session is being set up.
    pub fn dummy() -> (r: Self)
        ensures
            !r.connected(),
            r.pending() == Seq::<KindView>::empty(),
    {
        let r = MessageSender { connected: false, queue: Vec::new() };
        proof {
            assert(r.pending() =~= Seq::<KindView>::empty());
        }
        r
    }

    /// A channel to a transport, with nothing queued.
    pub fn new() -> (r: Self)
        ensures
            r.connected(),
            r.pending() == Seq::<KindView>::empty(),
    {
        let r = MessageSender { connected: true, queue: Vec::new() };
        proof {
            assert(r.pending() =~= Seq::<KindView>::empty());
        }
        r
    }

    /// Queues `message` for the transport; the placeholder drops it.
    pub fn send_raw_message(&mut self, message: MessageKind)
        ensures
            final(self).connected() == old(self).connected(),
            old(self).connected() ==> final(self).pending() == old(self).pending().push(message@),
            !old(self).connected() ==> final(self).pending() == old(self).pending(),
    {
        if self.connected {
            let ghost v = message@;
            self.queue.push(message);
            proof {
                assert(self.pending() =~= old(self).pending().push(v));
            }
        }
    }

    /// Asks the transport to close the connection.
    pub fn close_session(&mut self) -> (r: Result<(), SendMessageError>)
        ensures
            final(self).connected() == old(self).connected(),
            old(self).connected() ==> final(self).pending() == old(self).pending().push(
                KindView::Close,
            ),
            !old(self).connected() ==> final(self).pending() == old(self).pending(),
            r is Ok,
    {
        self.send_raw_message(MessageKind::Close);
        Ok(())
    }

    /// Hands the queued messages to the transport, oldest first.
    pub fn take_messages(&mut self) -> (r: Vec<MessageKind>)
        ensures
            final(self).connected() == old(self).connected(),
            final(self).pending() == Seq::<KindView>::empty(),
            r@.map_values(|m: MessageKind| m@) == old(self).pending(),
    {
        let mut out: Vec<MessageKind> = Vec::new();
        std::mem::swap(&mut out, &mut self.queue);
        proof {
            assert(self.pending() =~= Seq::<KindView>::empty());
        }
        out
    }
}

/// One client connection: its outbound channel, who it acts for, and the
/// service instances it created.
pub struct Session {
    id: u32,
    state: SessionState,
    sender: MessageSender,
    origin: OriginAttributes,
    settings: Option<SettingsService>,
}

impl Session {
    pub closed spec fn id(&self) -> u32 {
        self.id
    }

    pub closed spec fn state(&self) -> SessionState {
        self.state
    }

    pub closed spec fn sender(&self) -> MessageSender {
        self.sender
    }

    /// Who the session acts for.
    pub closed spec fn origin(&self) -> OriginView {
        self.origin@
    }

    /// Whether the session created its settings service instance.
    pub closed spec fn has_service(&self) -> bool {
        self.settings is Some
    }

    pub closed spec fn wf(&self) -> bool {
        &&& (self.settings matches Some(s) ==> s.wf() && s.session() == self.id
            && s.service_id() == SETTINGS_SERVICE && s.origin() == self.origin@)
        &&& (self.state == SessionState::Closed ==> self.settings is None)
    }

    /// A session in setup, with the placeholder channel `sender`.
    pub fn open(id: u32, origin: OriginAttributes, sender: MessageSender) -> (r: Self)
        ensures
            r.wf(),
            r.id() == id,
            r.state() == SessionState::Opening,
            r.sender() == sender,
            !r.has_service(),
    {
        Session { id, state: SessionState::Opening, sender, origin, settings: None }
    }

    /// The session's id.
    pub fn session_id(&self) -> (r: u32)
        ensures
            r == self.id(),
    {
        self.id
    }

    /// Where the session is in its life.
    pub fn current_state(&self) -> (r: SessionState)
        ensures
            r == self.state(),
    {
        self.state
    }

    /// Whether the session takes messages: it is active and has a transport.
    pub fn accepts_messages(&self) -> (r: bool)
        ensures
            r == (self.state() == SessionState::Active && self.sender().connected()),
    {
        self.state == SessionState::Active && self.sender.connected
    }

    /// Installs the transport's channel; a session in setup becomes active.
    pub fn replace_sender(&mut self, sender: MessageSender)
        requires
            old(self).wf(),
        ensures
            final(self).wf(),
            final(self).id() == old(self).id(),
            final(self).sender() == sender,
            final(self).has_service() == old(self).has_service(),
            old(self).state() == SessionState::Opening ==> final(self).state()
                == SessionState::Active,
            old(self).state() != SessionState::Opening ==> final(self).state() == old(self).state(),
    {
        self.sender = sender;
        if self.state == SessionState::Opening {
            self.state = SessionState::Active;
        }
    }

    /// Stops routing messages; calling it again changes nothing.
    pub fn close(&mut self)
        requires
            old(self).wf(),
        ensures
            final(self).wf(),
            final(self).id() == old(self).id(),
            final(self).sender() == old(self).sender(),
            final(self).has_service() == old(self).has_service(),
            (old(self).state() == SessionState::Opening || old(self).state()
                == SessionState::Active) ==> final(self).state() == SessionState::Closing,
            (old(self).state() == SessionState::Closing || old(self).state()
                == SessionState::Closed) ==> final(self).state() == old(self).state(),
            final(self).state() == SessionState::Closed ==> !final(self).has_service(),
    {
        if self.state == SessionState::Opening || self.state == SessionState::Active {
            self.state = SessionState::Closing;
        }
    }

    /// Finishes closing: the service instance releases what it registered in
    /// the shared state, and the transport is told to close.
    pub fn finish_close(&mut self, state: &mut SettingsSharedData)
        requires
            old(self).wf(),
            old(state).wf(),
        ensures
            final(self).wf(),
            final(state).wf(),
            final(self).id() == old(self).id(),
            old(self).state() == SessionState::Closing ==> final(self).state()
                == SessionState::Closed && !final(self).has_service(),
            old(self).state() != SessionState::Closing ==> *final(self) == *old(self) && *final(state) == *old(state),
    {
        if self.state != SessionState::Closing {
            return;
        }
        let mut service: Option<SettingsService> = None;
        std::mem::swap(&mut service, &mut self.settings);
        match service {
            Some(s) => s.teardown(state),
            None => {},
        }
        let _ = self.sender.close_session();
        self.state = SessionState::Closed;
    }

    /// Queues `message` on the session's channel.
    pub fn send(&mut self, message: MessageKind)
        requires
            old(self).wf(),
        ensures
            final(self).wf(),
            final(self).id() == old(self).id(),
            final(self).state() == old(self).state(),
            final(self).has_service() == old(self).has_service(),
            final(self).sender().connected() == old(self).sender().connected(),
            old(self).sender().connected() ==> final(self).sender().pending() == old(self).sender().pending().push(message@),
            !old(self).sender().connected() ==> final(self).sender().pending() == old(self).sender().pending(),
    {
        self.sender.send_raw_message(message);
    }

    /// Hands the queued messages to the transport.
    pub fn take_messages(&mut self) -> (r: Vec<MessageKind>)
        requires
            old(self).wf(),
        ensures
            final(self).wf(),
            final(self).id() == old(self).id(),
            final(self).state() == old(self).state(),
            final(self).has_service() == old(self).has_service(),
            final(self).sender().connected() == old(self).sender().connected(),
            final(self).sender().pending() == Seq::<KindView>::empty(),
            r@.map_values(|m: MessageKind| m@) == old(self).sender().pending(),
    {
        self.sender.take_messages()
    }

    /// Handles one inbound frame. An active session decodes the envelope and
    /// hands requests for the settings service to its instance, creating it
    /// on first use; it returns the messages to deliver. A frame that does not
    /// decode, names an unknown service, or reaches a session that is not
    /// active is dropped: nothing is returned and the session goes on as it
    /// was.
    pub fn on_message(&mut self, state: &mut SettingsSharedData, bytes: &[u8]) -> (r: Vec<Delivery>)
        requires
            old(self).wf(),
            old(state).wf(),
        ensures
            final(self).wf(),
            final(state).wf(),
            final(self).id() == old(self).id(),
            final(self).state() == old(self).state(),
            final(self).sender() == old(self).sender(),
            old(self).state() != SessionState::Active ==> r@.len() == 0 && *final(self) == *old(self)
                && *final(state) == *old(state),
            parse_message(bytes@) is Err ==> r@.len() == 0 && *final(self) == *old(self)
                && *final(state) == *old(state),
            match parse_message(bytes@) {
                Ok(m) => m.service != SETTINGS_SERVICE ==> r@.len() == 0 && *final(self) == *old(self)
                    && *final(state) == *old(state),
                Err(_) => true,
            },
            match parse_message(bytes@) {
                Ok(m) => (old(self).state() == SessionState::Active && m.service == SETTINGS_SERVICE)
                    ==> session_handled(
                    *old(self),
                    *old(state),
                    m,
                    r@.map_values(|d: Delivery| d@),
                    *final(self),
                    *final(state),
                ),
                Err(_) => true,
            },
    {
        if self.state != SessionState::Active {
            return Vec::new();
        }
        let message = match decode_message(bytes) {
            Ok(m) => m,
            Err(_) => return Vec::new(),
        };
        if message.service != SETTINGS_SERVICE {
            return Vec::new();
        }
        if self.settings.is_none() {
            self.settings = SettingsService::create(&self.origin, self.id, state);
        }
        let ghost mid = *state;
        match &mut self.settings {
            Some(service) => {
                let r = service.on_request(state, &message);
                proof {
                    let ds = r@.map_values(|d: Delivery| d@);
                    assert forall|i: int| 1 <= i < ds.len() implies (#[trigger] ds[i]).1.kind
                        == MessageType::Event by {
                        assert(ds[i] == r@[i]@);
                    }
                    assert(r@.len() >= 1 ==> r@.map_values(|d: Delivery| d@)[0] == r@[0]@);
                }
                r
            },
            None => Vec::new(),
        }
    }
}

/// The reply to an envelope `m` whose payload is `content`.
pub open spec fn reply(s: Session, m: MessageView, content: Seq<u8>) -> (u32, MessageView) {
    (s.id(), response_message(SETTINGS_SERVICE, m.object, content))
}

/// What an active session does with an envelope `m` for the settings
/// service, from session `s0` and shared state `st0` to deliveries `ds`,
/// session `s1` and state `st1`. A payload that does not decode is dropped.
/// Otherwise the session creates its service instance on first use, which
/// registers its dispatcher, unless dispatcher ids are used up (then nothing
/// is answered). The answer comes first and the events after it: a refusal
/// for want of permission changes nothing in the store; a granted store
/// request gets its answer, changes the store as `store_after` says and
/// notifies as `store_events` says.
pub open spec fn session_handled(
    s0: Session,
    st0: SettingsSharedData,
    m: MessageView,
    ds: Seq<(u32, MessageView)>,
    s1: Session,
    st1: SettingsSharedData,
) -> bool {
    match parse_request(m.content) {
        Err(_) => ds.len() == 0 && st1.db == st0.db,
        Ok(req) => if !s0.has_service() && st0.dispatchers.issued() > u32::MAX {
            &&& ds.len() == 0
            &&& !s1.has_service()
            &&& st1.db == st0.db
            &&& st1.observers == st0.observers
            &&& st1.dispatchers.registrations() == st0.dispatchers.registrations()
        } else {
            let regs = if s0.has_service() {
                st0.dispatchers.registrations()
            } else {
                st0.dispatchers.registrations().push(
                    Registration {
                        id: st0.dispatchers.issued() as u32,
                        session: s0.id(),
                        key: change_key(),
                    },
                )
            };
            &&& s1.has_service()
            &&& ds.len() >= 1
            &&& ds[0].0 == s0.id()
            &&& ds[0].1.service == SETTINGS_SERVICE
            &&& ds[0].1.object == m.object
            &&& ds[0].1.kind == MessageType::Response
            &&& forall|i: int| 1 <= i < ds.len() ==> (#[trigger] ds[i]).1.kind == MessageType::Event
            &&& match required_permission(req) {
                Some((perm, why)) => if !grants(s0.origin(), perm) {
                    ds == seq![reply(s0, m, response_bytes(ResponseView::PermissionError(perm, why)))]
                        && st1.db == st0.db
                } else {
                    match store_answer(st0.db.settings(), req) {
                        Some(a) => ds == seq![reply(s0, m, response_bytes(a))] + store_events(
                            regs,
                            st0.observers.observers(),
                            req,
                        ) && st1.db.settings() == store_after(st0.db.settings(), req),
                        None => st1.db == st0.db,
                    }
                },
                None => st1.db == st0.db,
            }
        },
    }
}

} // verus!
