//! The composition root: every session, and the state their services share.
use crate::events::{
    deliveries_to, event_message, has_listener, lemma_listeners_count, listeners, Delivery, EventMapKey,
    Registration,
};
use crate::ids::IdFactory;
use crate::message::{encode_message, message_bytes, MessageView};
use crate::message::parse_message;
use crate::service::{OriginAttributes, SettingsSharedData, SETTINGS_SERVICE};
use crate::session::{session_handled, KindView, MessageKind, MessageSender, Session, SessionState};
use vstd::prelude::*;

verus! {

/// What every connection shares: the factory of session ids and the state
/// of the services.
pub struct SharedWsData {
    session_id_factory: IdFactory,
    settings: SettingsSharedData,
}

impl SharedWsData {
    pub closed spec fn wf(&self) -> bool {
        self.session_id_factory.wf() && self.settings.wf()
    }

    /// The state of the services.
    pub closed spec fn settings(&self) -> SettingsSharedData {
        self.settings
    }

    /// The next session id to hand out.
    pub closed spec fn issued(&self) -> nat {
        self.session_id_factory@
    }

    /// Fresh shared state; session ids start at 0.
    pub fn new() -> (r: Self)
        ensures
            r.wf(),
            r.issued() == 0,
    {
        SharedWsData { session_id_factory: IdFactory::new(0), settings: SettingsSharedData::new() }
    }

    /// A session id never handed out before, or `None` once they are used up.
    pub fn next_session_id(&mut self) -> (r: Option<u32>)
        requires
            old(self).wf(),
        ensures
            final(self).wf(),
            final(self).settings() == old(self).settings(),
            old(self).issued() <= u32::MAX ==> r == Some(old(self).issued() as u32)
                && final(self).issued() == old(self).issued() + 1,
            old(self).issued() > u32::MAX ==> r is None && final(self).issued() == old(self).issued(),
    {
        self.session_id_factory.next_id()
    }
}

/// The frames that the deliveries `ds` bring to session `id`, in order.
pub open spec fn frames_for(ds: Seq<(u32, MessageView)>, id: u32) -> Seq<KindView>
    decreases ds.len(),
{
    if ds.len() == 0 {
        seq![]
    } else if ds.last().0 == id {
        frames_for(ds.drop_last(), id).push(
            KindView::Data(ds.last().1.service, message_bytes(ds.last().1)),
        )
    } else {
        frames_for(ds.drop_last(), id)
    }
}

/// Session `k` of `d0` handled envelope `m` as `session_handled` says,
/// producing the deliveries `ds`, and every session got the frames that
/// `ds` brings it whenever it takes messages.
pub open spec fn routed(d0: Daemon, d1: Daemon, k: int, m: MessageView, ds: Seq<(u32, MessageView)>) -> bool {
    &&& session_handled(
        d0.sessions()[k],
        d0.shared().settings(),
        m,
        ds,
        d1.sessions()[k],
        d1.shared().settings(),
    )
    &&& forall|j: int|
        0 <= j < d0.sessions().len() ==> (#[trigger] d1.sessions()[j]).sender().pending()
            == d0.sessions()[j].sender().pending() + if accepts(d0.sessions()[j]) {
            frames_for(ds, d0.sessions()[j].id())
        } else {
            seq![]
        }
}

/// Whether `s` takes messages: it is active and has a transport.
pub open spec fn accepts(s: Session) -> bool {
    s.state() == SessionState::Active && s.sender().connected()
}

/// All sessions of the daemon, and the state they share.
pub struct Daemon {
    shared: SharedWsData,
    sessions: Vec<Session>,
}

impl Daemon {
    pub closed spec fn sessions(&self) -> Seq<Session> {
        self.sessions@
    }

    pub closed spec fn shared(&self) -> SharedWsData {
        self.shared
    }

    pub closed spec fn wf(&self) -> bool {
        &&& self.shared.wf()
        &&& forall|k: int| 0 <= k < self.sessions@.len() ==> (#[trigger] self.sessions@[k]).wf()
        &&& forall|k: int|
            0 <= k < self.sessions@.len() ==> ((#[trigger] self.sessions@[k]).id() as nat)
                < self.shared.issued()
        &&& forall|a: int, b: int|
            0 <= a < b < self.sessions@.len() ==> (#[trigger] self.sessions@[a]).id() < (
            #[trigger] self.sessions@[b]).id()
    }

    /// A daemon with no session.
    pub fn new() -> (r: Self)
        ensures
            r.wf(),
            r.sessions().len() == 0,
            r.shared().issued() == 0,
    {
        Daemon { shared: SharedWsData::new(), sessions: Vec::new() }
    }

    /// Index of the session with id `id`, if any.
    fn find(&self, id: u32) -> (r: Option<usize>)
        requires
            self.wf(),
        ensures
            match r {
                Some(k) => k < self.sessions().len() && self.sessions()[k as int].id() == id,
                None => forall|k: int|
                    0 <= k < self.sessions().len() ==> (#[trigger] self.sessions()[k]).id() != id,
            },
    {
        let n = self.sessions.len();
        let mut k: usize = 0;
        while k < n
            invariant
                n == self.sessions@.len(),
                k <= n,
                forall|j: int| 0 <= j < k ==> (#[trigger] self.sessions@[j]).id() != id,
            decreases n - k,
        {
            if self.sessions[k].session_id() == id {
                return Some(k);
            }
            k = k + 1;
        }
        None
    }

    /// Opens a session for `origin` with a placeholder channel; returns its
    /// id, or `None` once session ids are used up.
    pub fn open_session(&mut self, origin: OriginAttributes) -> (r: Option<u32>)
        requires
            old(self).wf(),
        ensures
            final(self).wf(),
            match r {
                Some(id) => final(self).sessions().len() == old(self).sessions().len() + 1
                    && final(self).sessions().drop_last() == old(self).sessions()
                    && final(self).sessions().last().id() == id
                    && final(self).sessions().last().state() == SessionState::Opening,
                None => final(self).sessions() == old(self).sessions(),
            },
            r is None <==> old(self).shared().issued() > u32::MAX,
            r matches Some(id) ==> id as nat == old(self).shared().issued() && final(self).shared().issued()
                == old(self).shared().issued() + 1 && !final(self).sessions().last().sender().connected()
                && final(self).sessions().last().sender().pending().len() == 0
                && !final(self).sessions().last().has_service(),
    {
        let id = match self.shared.next_session_id() {
            Some(id) => id,
            None => return None,
        };
        let session = Session::open(id, origin, MessageSender::dummy());
        self.sessions.push(session);
        proof {
            assert(self.sessions@.drop_last() =~= old(self).sessions@);
            assert forall|a: int, b: int|
                0 <= a < b < self.sessions@.len() implies (#[trigger] self.sessions@[a]).id() < (
                #[trigger] self.sessions@[b]).id() by {
                if b == self.sessions@.len() - 1 {
                    assert(self.sessions@[a] == old(self).sessions@[a]);
                } else {
                    assert(self.sessions@[a] == old(self).sessions@[a]);
                    assert(self.sessions@[b] == old(self).sessions@[b]);
                }
            }
            assert forall|k: int| 0 <= k < self.sessions@.len() implies (#[trigger] self.sessions@[k]).wf()
                && (self.sessions@[k].id() as nat) < self.shared.issued() by {
                if k < old(self).sessions@.len() {
                    assert(self.sessions@[k] == old(self).sessions@[k]);
                }
            }
        }
        Some(id)
    }

    /// Installs the transport's channel of session `id`; returns whether the
    /// session exists.
    pub fn attach(&mut self, id: u32, sender: MessageSender) -> (r: bool)
        requires
            old(self).wf(),
        ensures
            final(self).wf(),
            final(self).sessions().len() == old(self).sessions().len(),
            r == exists|k: int|
                0 <= k < old(self).sessions().len() && (#[trigger] old(self).sessions()[k]).id() == id,
            forall|k: int|
                0 <= k < old(self).sessions().len() && (#[trigger] old(self).sessions()[k]).id() == id
                    ==> final(self).sessions()[k].sender() == sender && (old(self).sessions()[k].state()
                    == SessionState::Opening ==> final(self).sessions()[k].state()
                    == SessionState::Active),
    {
        match self.find(id) {
            Some(k) => {
                self.sessions[k].replace_sender(sender);
                proof {
                    self.lemma_same_ids(old(self).sessions(), k as int);
                    assert forall|j: int|
                        0 <= j < old(self).sessions().len() && (#[trigger] old(self).sessions()[j]).id()
                            == id implies j == k by {
                        let before = old(self).sessions();
                        if j < k {
                            assert(before[j].id() < before[k as int].id());
                        } else if j > k {
                            assert(before[k as int].id() < before[j].id());
                        }
                    }
                }
                true
            },
            None => false,
        }
    }

    proof fn lemma_same_ids(&self, before: Seq<Session>, k: int)
        requires
            before.len() == self.sessions@.len(),
            0 <= k < before.len(),
            forall|j: int| 0 <= j < before.len() && j != k ==> before[j] == self.sessions@[j],
            self.sessions@[k].id() == before[k].id(),
            self.sessions@[k].wf(),
            self.shared.wf(),
            forall|j: int| 0 <= j < before.len() ==> (#[trigger] before[j]).wf(),
            forall|j: int| 0 <= j < before.len() ==> ((#[trigger] before[j]).id() as nat) < self.shared.issued(),
            forall|a: int, b: int| 0 <= a < b < before.len() ==> (#[trigger] before[a]).id() < (#[trigger] before[b]).id(),
        ensures
            self.wf(),
    {
        let s = self.sessions@;
        assert forall|j: int| 0 <= j < s.len() implies (#[trigger] s[j]).wf() && (s[j].id() as nat)
            < self.shared.issued() by {
            if j != k {
                assert(s[j] == before[j]);
            }
        }
        assert forall|a: int, b: int| 0 <= a < b < s.len() implies (#[trigger] s[a]).id() < (
        #[trigger] s[b]).id() by {
            assert(s[a].id() == before[a].id());
            assert(s[b].id() == before[b].id());
        }
    }

    /// Hands each delivery to the session it is for, in order. A session
    /// that does not take messages, or an unknown one, misses its messages;
    /// every other session still gets all of its own. Returns how many
    /// deliveries were missed.
    pub fn deliver(&mut self, ds: &Vec<Delivery>) -> (failed: usize)
        requires
            old(self).wf(),
        ensures
            final(self).wf(),
            final(self).shared() == old(self).shared(),
            final(self).sessions().len() == old(self).sessions().len(),
            failed <= ds@.len(),
            forall|k: int|
                0 <= k < old(self).sessions().len() ==> {
                    let a = #[trigger] old(self).sessions()[k];
                    let b = final(self).sessions()[k];
                    &&& b.id() == a.id()
                    &&& b.state() == a.state()
                    &&& b.has_service() == a.has_service()
                    &&& b.sender().connected() == a.sender().connected()
                    &&& b.sender().pending() == a.sender().pending() + if accepts(a) {
                        frames_for(ds@.map_values(|d: Delivery| d@), a.id())
                    } else {
                        seq![]
                    }
                },
    {
        let ghost dsv = ds@.map_values(|d: Delivery| d@);
        let ghost before = self.sessions@;
        let n = ds.len();
        let mut failed: usize = 0;
        let mut i: usize = 0;
        while i < n
            invariant
                n == ds@.len(),
                i <= n,
                failed <= i,
                dsv == ds@.map_values(|d: Delivery| d@),
                self.wf(),
                self.shared == old(self).shared,
                self.sessions@.len() == before.len(),
                before == old(self).sessions(),
                forall|k: int|
                    0 <= k < before.len() ==> {
                        let a = #[trigger] before[k];
                        let b = self.sessions@[k];
                        &&& b.id() == a.id()
                        &&& b.state() == a.state()
                        &&& b.has_service() == a.has_service()
                        &&& b.sender().connected() == a.sender().connected()
                        &&& b.sender().pending() == a.sender().pending() + if accepts(a) {
                            frames_for(dsv.subrange(0, i as int), a.id())
                        } else {
                            seq![]
                        }
                    },
            decreases n - i,
        {
            let d = &ds[i];
            let ghost prefix = dsv.subrange(0, i as int);
            let ghost next = dsv.subrange(0, i + 1);
            proof {
                assert(next.drop_last() =~= prefix);
                assert(next.last() == d@);
            }
            let ghost mid = self.sessions@;
            match self.find(d.session) {
                Some(k) => {
                    if self.sessions[k].accepts_messages() {
                        let bytes = encode_message(&d.message);
                        let frame = MessageKind::Data(d.message.service, bytes);
                        self.sessions[k].send(frame);
                        proof {
                            self.lemma_same_ids(mid, k as int);
                            assert forall|j: int| 0 <= j < before.len() implies {
                                let a = #[trigger] before[j];
                                let b = self.sessions@[j];
                                &&& b.id() == a.id()
                                &&& b.state() == a.state()
                                &&& b.has_service() == a.has_service()
                                &&& b.sender().connected() == a.sender().connected()
                                &&& b.sender().pending() == a.sender().pending() + if accepts(a) {
                                    frames_for(next, a.id())
                                } else {
                                    seq![]
                                }
                            } by {
                                if j == k {
                                    assert(accepts(before[j]));
                                    let frame = KindView::Data(d.message@.service, message_bytes(d.message@));
                                    let p0 = before[j].sender().pending();
                                    let f0 = frames_for(prefix, before[j].id());
                                    assert(p0 + f0.push(frame) =~= (p0 + f0).push(frame));
                                } else {
                                    assert(self.sessions@[j] == mid[j]);
                                    if before[j].id() == d.session {
                                        if j < k {
                                            assert(mid[j].id() < mid[k as int].id());
                                        } else {
                                            assert(mid[k as int].id() < mid[j].id());
                                        }
                                    }
                                }
                            }
                        }
                    } else {
                        failed = failed + 1;
                        proof {
                            assert forall|j: int| 0 <= j < before.len() && accepts(#[trigger] before[j])
                                implies frames_for(next, before[j].id()) == frames_for(prefix, before[j].id()) by {
                                if j != k && before[j].id() == d.session {
                                    if j < k {
                                        assert(mid[j].id() < mid[k as int].id());
                                    } else {
                                        assert(mid[k as int].id() < mid[j].id());
                                    }
                                }
                            }
                        }
                    }
                },
                None => {
                    failed = failed + 1;
                    proof {
                        assert forall|j: int| 0 <= j < before.len() && accepts(#[trigger] before[j])
                            implies frames_for(next, before[j].id()) == frames_for(prefix, before[j].id()) by {
                            assert(self.sessions()[j].id() != d.session);
                        }
                    }
                },
            }
            i = i + 1;
        }
        proof {
            assert(dsv.subrange(0, n as int) =~= dsv);
        }
        failed
    }

    /// Handles a frame from the client of session `id` and delivers what it
    /// causes. Returns how many deliveries were missed. A frame for an unknown
    /// session, one that does not decode, or one for an unknown service
    /// changes nothing.
    pub fn on_message(&mut self, id: u32, bytes: &[u8]) -> (failed: usize)
        requires
            old(self).wf(),
        ensures
            final(self).wf(),
            final(self).sessions().len() == old(self).sessions().len(),
            forall|k: int|
                0 <= k < old(self).sessions().len() ==> (#[trigger] final(self).sessions()[k]).id()
                    == old(self).sessions()[k].id() && final(self).sessions()[k].state() == old(self).sessions()[k].state(),
            parse_message(bytes@) is Err ==> final(self).sessions() == old(self).sessions()
                && final(self).shared() == old(self).shared() && failed == 0,
            match parse_message(bytes@) {
                Ok(m) => m.service != SETTINGS_SERVICE ==> final(self).sessions() == old(self).sessions() && final(self).shared() == old(self).shared() && failed == 0,
                Err(_) => true,
            },
            match parse_message(bytes@) {
                Ok(m) => forall|k: int|
                    0 <= k < old(self).sessions().len() && (#[trigger] old(self).sessions()[k]).id()
                        == id && old(self).sessions()[k].state() == SessionState::Active && m.service
                        == SETTINGS_SERVICE ==> exists|ds: Seq<(u32, MessageView)>|
                        routed(*old(self), *final(self), k, m, ds),
                Err(_) => true,
            },
    {
        let k = match self.find(id) {
            Some(k) => k,
            None => return 0,
        };
        let ghost mid = self.sessions@;
        let deliveries = self.sessions[k].on_message(&mut self.shared.settings, bytes);
        proof {
            self.lemma_same_ids(mid, k as int);
        }
        let ghost ds = deliveries@.map_values(|d: Delivery| d@);
        proof {
            assert forall|j: int|
                0 <= j < old(self).sessions().len() && (#[trigger] old(self).sessions()[j]).id() == id implies j
                == k by {
                let before = old(self).sessions();
                if j < k {
                    assert(before[j].id() < before[k as int].id());
                } else if j > k {
                    assert(before[k as int].id() < before[j].id());
                }
            }
        }
        if deliveries.len() == 0 {
            proof {
                assert forall|j: int| 0 <= j < old(self).sessions().len() implies (#[trigger] self.sessions()[j]).sender().pending()
                    == old(self).sessions()[j].sender().pending() + if accepts(old(self).sessions()[j]) {
                    frames_for(ds, old(self).sessions()[j].id())
                } else {
                    seq![]
                } by {
                    if j != k {
                        assert(self.sessions()[j] == mid[j]);
                    }
                    assert(ds.len() == 0);
                    assert(old(self).sessions()[j].sender().pending() + Seq::<KindView>::empty()
                        =~= old(self).sessions()[j].sender().pending());
                }
                if let Ok(m) = parse_message(bytes@) {
                    if m.service == SETTINGS_SERVICE && old(self).sessions()[k as int].state()
                        == SessionState::Active {
                        assert(routed(*old(self), *self, k as int, m, ds));
                    }
                }
                if parse_message(bytes@) is Err || (parse_message(bytes@) matches Ok(m)
                    && m.service != SETTINGS_SERVICE) {
                    assert(self.sessions@ =~= old(self).sessions@);
                }
            }
            return 0;
        }
        let ghost mid2 = self.sessions@;
        let failed = self.deliver(&deliveries);
        proof {
            assert forall|j: int| 0 <= j < old(self).sessions().len() implies (#[trigger] self.sessions()[j]).sender().pending()
                == old(self).sessions()[j].sender().pending() + if accepts(old(self).sessions()[j]) {
                frames_for(ds, old(self).sessions()[j].id())
            } else {
                seq![]
            } by {
                if j != k {
                    assert(mid2[j] == mid[j]);
                }
                assert(mid2[j].sender() == old(self).sessions()[j].sender());
                assert(mid2[j].state() == old(self).sessions()[j].state());
            }
            if let Ok(m) = parse_message(bytes@) {
                if m.service == SETTINGS_SERVICE && old(self).sessions()[k as int].state()
                    == SessionState::Active {
                    assert(self.sessions()[k as int].has_service() == mid2[k as int].has_service());
                    assert(routed(*old(self), *self, k as int, m, ds));
                }
            }
            assert forall|j: int| 0 <= j < old(self).sessions().len() implies (#[trigger] self.sessions()[j]).id()
                == old(self).sessions()[j].id() && self.sessions()[j].state() == old(self).sessions()[j].state() by {
                assert(self.sessions()[j].id() == mid2[j].id());
                assert(self.sessions()[j].state() == mid2[j].state());
                if j != k {
                    assert(mid2[j] == mid[j]);
                }
            }
        }
        failed
    }

    /// Closes session `id`: it stops routing, its service instance releases
    /// what it registered, and the transport is told to close. Returns
    /// whether the session exists; closing twice changes nothing more.
    pub fn close_session(&mut self, id: u32) -> (r: bool)
        requires
            old(self).wf(),
        ensures
            final(self).wf(),
            final(self).sessions().len() == old(self).sessions().len(),
            r == exists|k: int|
                0 <= k < old(self).sessions().len() && (#[trigger] old(self).sessions()[k]).id() == id,
            forall|k: int|
                0 <= k < final(self).sessions().len() && (#[trigger] final(self).sessions()[k]).id()
                    == id ==> final(self).sessions()[k].state() == SessionState::Closed
                    && !final(self).sessions()[k].has_service(),
            forall|k: int|
                0 <= k < old(self).sessions().len() ==> (#[trigger] final(self).sessions()[k]).id()
                    == old(self).sessions()[k].id(),
            forall|k: int|
                0 <= k < old(self).sessions().len() && (#[trigger] old(self).sessions()[k]).id() != id
                    ==> final(self).sessions()[k] == old(self).sessions()[k],
    {
        match self.find(id) {
            Some(k) => {
                let ghost mid = self.sessions@;
                self.sessions[k].close();
                let ghost mid2 = self.sessions@;
                proof {
                    self.lemma_same_ids(mid, k as int);
                }
                if self.sessions[k].current_state() == SessionState::Closing {
                    self.sessions[k].finish_close(&mut self.shared.settings);
                    proof {
                        self.lemma_same_ids(mid2, k as int);
                    }
                }
                proof {
                    assert forall|j: int| 0 <= j < old(self).sessions().len() && j != k implies self.sessions()[j]
                        == old(self).sessions()[j] by {
                        assert(self.sessions@[j] == mid2[j]);
                        assert(mid2[j] == mid[j]);
                    }
                    assert(self.sessions@[k as int].id() == mid[k as int].id());
                    assert(self.sessions@[k as int].state() == SessionState::Closed);
                    assert(!self.sessions@[k as int].has_service());
                    assert forall|j: int|
                        0 <= j < self.sessions@.len() && (#[trigger] self.sessions()[j]).id()
                            == id implies j == k by {
                        if j < k {
                            assert(self.sessions@[j].id() < self.sessions@[k as int].id());
                        } else if j > k {
                            assert(self.sessions@[k as int].id() < self.sessions@[j].id());
                        }
                    }
                }
                true
            },
            None => false,
        }
    }

    /// The messages queued for the transport of session `id`, oldest first;
    /// none for an unknown session.
    pub fn take_messages(&mut self, id: u32) -> (r: Vec<MessageKind>)
        requires
            old(self).wf(),
        ensures
            final(self).wf(),
            final(self).sessions().len() == old(self).sessions().len(),
            forall|k: int|
                0 <= k < old(self).sessions().len() && (#[trigger] old(self).sessions()[k]).id() == id
                    ==> r@.map_values(|m: MessageKind| m@) == old(self).sessions()[k].sender().pending()
                    && final(self).sessions()[k].sender().pending() == Seq::<KindView>::empty(),
            (forall|k: int|
                0 <= k < old(self).sessions().len() ==> (#[trigger] old(self).sessions()[k]).id()
                    != id) ==> r@.len() == 0,
    {
        match self.find(id) {
            Some(k) => {
                let ghost mid = self.sessions@;
                let r = self.sessions[k].take_messages();
                proof {
                    self.lemma_same_ids(mid, k as int);
                    assert forall|j: int|
                        0 <= j < mid.len() && (#[trigger] mid[j]).id() == id implies j == k by {
                        if j < k {
                            assert(mid[j].id() < mid[k as int].id());
                        } else if j > k {
                            assert(mid[k as int].id() < mid[j].id());
                        }
                    }
                }
                r
            },
            None => Vec::new(),
        }
    }

    /// Where session `id` is in its life; `None` for an unknown session.
    pub fn session_state(&self, id: u32) -> (r: Option<SessionState>)
        requires
            self.wf(),
        ensures
            match r {
                Some(st) => exists|k: int|
                    0 <= k < self.sessions().len() && (#[trigger] self.sessions()[k]).id() == id
                        && self.sessions()[k].state() == st,
                None => forall|k: int|
                    0 <= k < self.sessions().len() ==> (#[trigger] self.sessions()[k]).id() != id,
            },
    {
        match self.find(id) {
            Some(k) => Some(self.sessions[k].current_state()),
            None => None,
        }
    }
}

/// Each session gets one frame per delivery addressed to it.
proof fn lemma_frames_count(ls: Seq<u32>, m: MessageView, id: u32)
    ensures
        frames_for(deliveries_to(ls, m), id).len() == ls.filter(|s: u32| s == id).len(),
    decreases ls.len(),
{
    reveal(Seq::filter);
    if ls.len() > 0 {
        let ds = deliveries_to(ls, m);
        assert(ds.drop_last() =~= deliveries_to(ls.drop_last(), m));
        lemma_frames_count(ls.drop_last(), m, id);
    }
}

/// Broadcasting and delivering: with no listener there is nothing to
/// deliver; otherwise each session gets one frame per registration of it
/// that listens, and by `Daemon::deliver` it receives them whenever it takes
/// messages, whatever state the other sessions are in.
pub proof fn lemma_broadcast_delivery(
    regs: Seq<Registration>,
    key: EventMapKey,
    content: Seq<u8>,
    id: u32,
)
    ensures
        !has_listener(regs, key) ==> deliveries_to(listeners(regs, key), event_message(key, content)).len()
            == 0,
        frames_for(deliveries_to(listeners(regs, key), event_message(key, content)), id).len()
            == listeners(regs, key).filter(|s: u32| s == id).len(),
{
    lemma_listeners_count(regs, key);
    lemma_frames_count(listeners(regs, key), event_message(key, content), id);
}

} // verus!
