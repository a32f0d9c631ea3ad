//! The settings service: one instance per session, over state that all
//! sessions share.
use crate::events::{
    deliveries_to, event_message, listeners, Delivery, EventBroadcaster, EventMapKey,
};
use crate::message::{BaseMessage, MessageType, MessageView};
use crate::observers::{observers_of, NamedObserver, ObserverRegistry, ObserverView};
use crate::protocol::{
    change_event_bytes, decode_request, encode_change_event, encode_response,
    parse_request, response_bytes, GetErrorReason, RequestView, ResponseView, SettingsRequest,
    SettingsResponse,
};
use crate::store::{apply_updates, batch_of, SettingInfo, SettingView, SettingsDb};
use crate::tracker::ObjectTracker;
use vstd::prelude::*;

verus! {


/// The service id under which sessions reach the settings service.
pub const SETTINGS_SERVICE: u32 = 1;

/// The event that reports a setting's new value to the service's dispatchers.
pub const CHANGE_EVENT: u32 = 0;

/// The key under which session dispatchers listen to setting changes.
pub open spec fn change_key() -> EventMapKey {
    EventMapKey { service: SETTINGS_SERVICE, object: 0, event: CHANGE_EVENT }
}

/// The message that tells observer `o` about the new value of a setting.
pub open spec fn observer_message(o: ObserverView, s: SettingView) -> (u32, MessageView) {
    (
        o.session,
        MessageView {
            service: SETTINGS_SERVICE,
            object: o.object,
            kind: MessageType::Event,
            content: change_event_bytes(s),
        },
    )
}

/// Who hears of the new value `s`: every dispatcher of the change event,
/// then every observer of the setting, oldest first.
pub open spec fn notifications(
    regs: Seq<crate::events::Registration>,
    obs: Seq<ObserverView>,
    s: SettingView,
) -> Seq<(u32, MessageView)> {
    deliveries_to(listeners(regs, change_key()), event_message(change_key(), change_event_bytes(s)))
        + observers_of(obs, s.name).map_values(|o: ObserverView| observer_message(o, s))
}

/// The notifications of each of `updates`, in order.
pub open spec fn all_notifications(
    regs: Seq<crate::events::Registration>,
    obs: Seq<ObserverView>,
    updates: Seq<SettingView>,
) -> Seq<(u32, MessageView)>
    decreases updates.len(),
{
    if updates.len() == 0 {
        seq![]
    } else {
        all_notifications(regs, obs, updates.drop_last()) + notifications(regs, obs, updates.last())
    }
}

/// Every notification is an event.
pub proof fn lemma_notifications_are_events(
    regs: Seq<crate::events::Registration>,
    obs: Seq<ObserverView>,
    updates: Seq<SettingView>,
)
    ensures
        forall|i: int|
            0 <= i < all_notifications(regs, obs, updates).len() ==> (#[trigger] all_notifications(
                regs,
                obs,
                updates,
            )[i]).1.kind == MessageType::Event,
    decreases updates.len(),
{
    if updates.len() > 0 {
        lemma_notifications_are_events(regs, obs, updates.drop_last());
        let a = all_notifications(regs, obs, updates.drop_last());
        let b = notifications(regs, obs, updates.last());
        assert forall|i: int| 0 <= i < b.len() implies (#[trigger] b[i]).1.kind == MessageType::Event by {
            let d = deliveries_to(listeners(regs, change_key()), event_message(change_key(), change_event_bytes(updates.last())));
            if i >= d.len() {
                assert(b[i] == observers_of(obs, updates.last().name).map_values(|o: ObserverView| observer_message(o, updates.last()))[i - d.len()]);
            }
        }
        assert forall|i: int| 0 <= i < (a + b).len() implies (#[trigger] (a + b)[i]).1.kind == MessageType::Event by {
            if i >= a.len() {
                assert((a + b)[i] == b[i - a.len()]);
            }
        }
    }
}

/// State that every session's settings service shares: the store, the
/// dispatchers of the sessions, and the observers of single settings.
pub struct SettingsSharedData {
    pub db: SettingsDb,
    pub dispatchers: EventBroadcaster,
    pub observers: ObserverRegistry,
}

impl SettingsSharedData {
    pub open spec fn wf(&self) -> bool {
        &&& self.db.wf()
        &&& self.dispatchers.wf()
        &&& self.observers.wf()
    }

    /// Shared state with no setting, no dispatcher and no observer.
    pub fn new() -> (r: Self)
        ensures
            r.wf(),
            r.db.settings() == Map::<Seq<char>, Seq<char>>::empty(),
            r.dispatchers.registrations() == Seq::<crate::events::Registration>::empty(),
            r.dispatchers.issued() == 0,
            r.observers.observers() == Seq::<ObserverView>::empty(),
    {
        SettingsSharedData {
            db: SettingsDb::new(),
            dispatchers: EventBroadcaster::new(0),
            observers: ObserverRegistry::new(),
        }
    }

    /// The messages that announce the new value `s`.
    fn notify(&self, s: &SettingInfo) -> (r: Vec<Delivery>)
        ensures
            r@.map_values(|d: Delivery| d@) == notifications(
                self.dispatchers.registrations(),
                self.observers.observers(),
                s@,
            ),
    {
        let content = encode_change_event(s);
        let key = EventMapKey::new(SETTINGS_SERVICE, 0, CHANGE_EVENT);
        let mut out = self.dispatchers.broadcast(key, &content);
        let targets = self.observers.observers_of(&s.name);
        let ghost head = out@;
        let ghost tview = targets@.map_values(|o: NamedObserver| o@);
        let n = targets.len();
        let mut i: usize = 0;
        while i < n
            invariant
                n == targets@.len(),
                i <= n,
                content@ == change_event_bytes(s@),
                tview == targets@.map_values(|o: NamedObserver| o@),
                out@.map_values(|d: Delivery| d@) == head.map_values(|d: Delivery| d@)
                    + tview.subrange(0, i as int).map_values(
                    |o: ObserverView| observer_message(o, s@),
                ),
            decreases n - i,
        {
            let message = BaseMessage {
                service: SETTINGS_SERVICE,
                object: targets[i].object,
                kind: MessageType::Event,
                content: crate::codec::copy_range(content.as_slice(), 0, content.len()),
            };
            proof {
                assert(content@.subrange(0, content@.len() as int) =~= content@);
            }
            let d = Delivery { session: targets[i].session, message };
            let ghost before = out@;
            out.push(d);
            proof {
                assert(out@.map_values(|d: Delivery| d@) =~= before.map_values(|d: Delivery| d@).push(
                    d@,
                ));
                assert(tview.subrange(0, i + 1).map_values(|o: ObserverView| observer_message(o, s@))
                    =~= tview.subrange(0, i as int).map_values(
                    |o: ObserverView| observer_message(o, s@),
                ).push(observer_message(tview[i as int], s@)));
            }
            i = i + 1;
        }
        proof {
            assert(tview.subrange(0, n as int) =~= tview);
            assert(out@.map_values(|d: Delivery| d@) =~= notifications(
                self.dispatchers.registrations(),
                self.observers.observers(),
                s@,
            ));
        }
        out
    }

    /// Sets each of `settings` in turn and returns the messages that
    /// announce each new value.
    pub fn set_and_notify(&mut self, settings: &Vec<SettingInfo>) -> (r: Vec<Delivery>)
        requires
            old(self).wf(),
        ensures
            final(self).wf(),
            final(self).db.settings() == apply_updates(
                old(self).db.settings(),
                settings@.map_values(|e: SettingInfo| e@),
            ),
            final(self).dispatchers == old(self).dispatchers,
            final(self).observers == old(self).observers,
            r@.map_values(|d: Delivery| d@) == all_notifications(
                old(self).dispatchers.registrations(),
                old(self).observers.observers(),
                settings@.map_values(|e: SettingInfo| e@),
            ),
    {
        let ghost all = settings@.map_values(|e: SettingInfo| e@);
        let ghost regs = self.dispatchers.registrations();
        let ghost obs = self.observers.observers();
        let mut out: Vec<Delivery> = Vec::new();
        let n = settings.len();
        let mut i: usize = 0;
        proof {
            assert(out@.map_values(|d: Delivery| d@) =~= seq![]);
        }
        while i < n
            invariant
                n == settings@.len(),
                i <= n,
                self.wf(),
                all == settings@.map_values(|e: SettingInfo| e@),
                self.dispatchers == old(self).dispatchers,
                self.observers == old(self).observers,
                regs == self.dispatchers.registrations(),
                obs == self.observers.observers(),
                self.db.settings() == apply_updates(old(self).db.settings(), all.subrange(0, i as int)),
                out@.map_values(|d: Delivery| d@) == all_notifications(
                    regs,
                    obs,
                    all.subrange(0, i as int),
                ),
            decreases n - i,
        {
            let s = settings[i].duplicate();
            let mut more = self.notify(&s);
            self.db.set_one(s);
            let ghost before = out@;
            let ghost extra = more@;
            out.append(&mut more);
            proof {
                assert(all.subrange(0, i + 1).drop_last() =~= all.subrange(0, i as int));
                assert(out@.map_values(|d: Delivery| d@) =~= before.map_values(|d: Delivery| d@)
                    + extra.map_values(|d: Delivery| d@));
            }
            i = i + 1;
        }
        proof {
            assert(all.subrange(0, n as int) =~= all);
        }
        out
    }
}

/// Who a session acts for: an identity and the permissions it was granted.
#[derive(Debug, Clone)]
pub struct OriginAttributes {
    identity: String,
    permissions: Vec<String>,
}

/// An identity and its permissions.
pub struct OriginView {
    pub identity: Seq<char>,
    pub permissions: Seq<Seq<char>>,
}

impl View for OriginAttributes {
    type V = OriginView;

    closed spec fn view(&self) -> OriginView {
        OriginView {
            identity: self.identity@,
            permissions: self.permissions@.map_values(|p: String| p@),
        }
    }
}

/// Identities that are granted every permission: sessions of the testing
/// token mode and sessions over the local socket.
pub open spec fn is_trusted_identity(identity: Seq<char>) -> bool {
    identity == "fake-identity"@ || identity == "uds"@
}

/// Whether `o` may do what permission `perm` guards.
pub open spec fn grants(o: OriginView, perm: Seq<char>) -> bool {
    is_trusted_identity(o.identity) || o.permissions.contains(perm)
}

impl OriginAttributes {
    pub fn new(identity: String, permissions: Vec<String>) -> (r: Self)
        ensures
            r@.identity == identity@,
            r@.permissions == permissions@.map_values(|p: String| p@),
    {
        OriginAttributes { identity, permissions }
    }

    /// A copy of these attributes.
    pub fn duplicate(&self) -> (r: Self)
        ensures
            r@ == self@,
    {
        let mut permissions: Vec<String> = Vec::new();
        let n = self.permissions.len();
        let mut i: usize = 0;
        while i < n
            invariant
                n == self.permissions@.len(),
                i <= n,
                permissions@.map_values(|p: String| p@) == self.permissions@.subrange(
                    0,
                    i as int,
                ).map_values(|p: String| p@),
            decreases n - i,
        {
            let ghost before = permissions@;
            let c = self.permissions[i].clone();
            permissions.push(c);
            proof {
                assert(c@ == self.permissions@[i as int]@);
                assert(permissions@.map_values(|p: String| p@) =~= before.map_values(|p: String| p@).push(c@));
                assert(self.permissions@.subrange(0, i + 1).map_values(|p: String| p@) =~= self.permissions@.subrange(0, i as int).map_values(|p: String| p@).push(c@));
                assert(permissions@.map_values(|p: String| p@) =~= self.permissions@.subrange(
                    0,
                    i + 1,
                ).map_values(|p: String| p@));
            }
            i = i + 1;
        }
        proof {
            assert(self.permissions@.subrange(0, n as int) =~= self.permissions@);
        }
        OriginAttributes { identity: self.identity.clone(), permissions }
    }

    /// The identity the session acts for.
    pub fn identity(&self) -> (r: &str)
        ensures
            r@ == self@.identity,
    {
        self.identity.as_str()
    }

    /// Whether permission `name` was granted to this identity.
    pub fn has_permission(&self, name: &str) -> (r: bool)
        ensures
            r == self@.permissions.contains(name@),
    {
        let wanted = name.to_string();
        let n = self.permissions.len();
        let mut i: usize = 0;
        while i < n
            invariant
                n == self.permissions@.len(),
                i <= n,
                wanted@ == name@,
                forall|j: int| 0 <= j < i ==> (#[trigger] self.permissions@[j])@ != name@,
            decreases n - i,
        {
            if self.permissions[i] == wanted {
                proof {
                    assert(self@.permissions[i as int] == name@);
                }
                return true;
            }
            i = i + 1;
        }
        proof {
            if self@.permissions.contains(name@) {
                let j = choose|j: int|
                    0 <= j < self@.permissions.len() && self@.permissions[j] == name@;
                assert(self.permissions@[j]@ == name@);
            }
        }
        false
    }

    /// Whether the identity is one of those granted every permission.
    pub fn is_trusted(&self) -> (r: bool)
        ensures
            r == is_trusted_identity(self@.identity),
    {
        let fake = "fake-identity".to_string();
        let uds = "uds".to_string();
        self.identity == fake || self.identity == uds
    }
}

/// The answer that refuses an operation for want of `perm`.
fn permission_error(perm: &str, reason: &str) -> (r: SettingsResponse)
    ensures
        r@ == ResponseView::PermissionError(perm@, reason@),
{
    SettingsResponse::PermissionError(perm.to_string(), reason.to_string())
}

/// One session's instance of the settings service.
pub struct SettingsService {
    id: u32,
    session: u32,
    proxy_tracker: ObjectTracker<String>,
    dispatcher_id: u32,
    observers: Vec<(u32, u32)>,
    origin_attributes: OriginAttributes,
}

impl SettingsService {
    /// The service id this instance answers under.
    pub closed spec fn service_id(&self) -> u32 {
        self.id
    }

    /// The session this instance belongs to.
    pub closed spec fn session(&self) -> u32 {
        self.session
    }

    /// Who the session acts for.
    pub closed spec fn origin(&self) -> OriginView {
        self.origin_attributes@
    }

    /// The observer objects the client holds, with the setting each observes.
    pub closed spec fn proxies(&self) -> Map<u32, Seq<char>> {
        self.proxy_tracker.objects().map_values(|n: String| n@)
    }

    /// The id the proxy tracker hands out next.
    pub closed spec fn issued(&self) -> nat {
        self.proxy_tracker.issued()
    }

    /// The observer objects that are registered, each with its
    /// registration id, oldest first.
    pub closed spec fn registered(&self) -> Seq<(u32, u32)> {
        self.observers@
    }

    /// The dispatcher that brings change events to this session.
    pub closed spec fn dispatcher(&self) -> u32 {
        self.dispatcher_id
    }

    /// The tracker is well formed, each observer object is registered at
    /// most once, and only tracked objects are registered.
    pub closed spec fn wf(&self) -> bool {
        &&& self.proxy_tracker.wf()
        &&& forall|i: int, j: int|
            0 <= i < j < self.observers@.len() ==> (#[trigger] self.observers@[i]).0 != (
            #[trigger] self.observers@[j]).0
        &&& forall|i: int|
            0 <= i < self.observers@.len() ==> self.proxy_tracker.objects().contains_key(
                (#[trigger] self.observers@[i]).0,
            )
    }

    /// Whether the session may do what `perm_name` guards: trusted
    /// identities may do everything, others need the permission.
    pub fn has_permission(&self, perm_name: &str, reason: &str) -> (r: bool)
        ensures
            r == grants(self.origin(), perm_name@),
    {
        if self.origin_attributes.is_trusted() {
            true
        } else {
            self.origin_attributes.has_permission(perm_name)
        }
    }

    /// Creates the instance for `session` and registers its dispatcher of
    /// change events. `None` once dispatcher ids are used up, and then the
    /// shared state is unchanged.
    pub fn create(
        origin_attributes: &OriginAttributes,
        session: u32,
        state: &mut SettingsSharedData,
    ) -> (r: Option<SettingsService>)
        requires
            old(state).wf(),
        ensures
            final(state).wf(),
            final(state).db == old(state).db,
            final(state).observers == old(state).observers,
            match r {
                Some(s) => {
                    &&& s.wf()
                    &&& s.service_id() == SETTINGS_SERVICE
                    &&& s.session() == session
                    &&& s.origin() == origin_attributes@
                    &&& s.proxies() == Map::<u32, Seq<char>>::empty()
                    &&& s.issued() == 1
                    &&& s.dispatcher() as nat == old(state).dispatchers.issued()
                    &&& s.registered() == Seq::<(u32, u32)>::empty()
                    &&& final(state).dispatchers.registrations() == old(state).dispatchers.registrations().push(
                        crate::events::Registration {
                            id: s.dispatcher(),
                            session,
                            key: change_key(),
                        },
                    )
                },
                None => final(state).dispatchers.registrations() == old(state).dispatchers.registrations(),
            },
            r is None <==> old(state).dispatchers.issued() > u32::MAX,
    {
        let key = EventMapKey::new(SETTINGS_SERVICE, 0, CHANGE_EVENT);
        match state.dispatchers.add(session, key) {
            Some(dispatcher_id) => {
                let s = SettingsService {
                    id: SETTINGS_SERVICE,
                    session,
                    proxy_tracker: ObjectTracker::new(1),
                    dispatcher_id,
                    observers: Vec::new(),
                    origin_attributes: origin_attributes.duplicate(),
                };
                proof {
                    assert(s.registered() =~= Seq::<(u32, u32)>::empty());
                    assert(s.proxies() =~= Map::<u32, Seq<char>>::empty());
                }
                Some(s)
            },
            None => None,
        }
    }

    /// Removes every setting.
    pub fn clear(&self, state: &mut SettingsSharedData) -> (r: SettingsResponse)
        requires
            old(state).wf(),
        ensures
            final(state).wf(),
            !grants(self.origin(), "settings:write"@) ==> r@ == ResponseView::PermissionError(
                "settings:write"@,
                "clear settings"@,
            ) && *final(state) == *old(state),
            grants(self.origin(), "settings:write"@) ==> r@ == ResponseView::ClearSuccess
                && final(state).db.settings() == Map::<Seq<char>, Seq<char>>::empty()
                && final(state).dispatchers == old(state).dispatchers && final(state).observers == old(state).observers,
    {
        if !self.has_permission("settings:write", "clear settings") {
            return permission_error("settings:write", "clear settings");
        }
        state.db.clear();
        SettingsResponse::ClearSuccess
    }

    /// The setting named `name`.
    pub fn get(&self, state: &SettingsSharedData, name: String) -> (r: SettingsResponse)
        requires
            state.wf(),
        ensures
            !grants(self.origin(), "settings:read"@) ==> r@ == ResponseView::PermissionError(
                "settings:read"@,
                "get settings"@,
            ),
            grants(self.origin(), "settings:read"@) ==> r@ == get_answer(state.db.settings(), name@),
    {
        if !self.has_permission("settings:read", "get setting") {
            return permission_error("settings:read", "get settings");
        }
        match state.db.get(&name) {
            Some(s) => SettingsResponse::GetSuccess(s),
            None => SettingsResponse::GetError(name, GetErrorReason::NonExistingSetting),
        }
    }

    /// Sets each of `settings` in turn; returns the answer and the messages
    /// that announce the new values.
    pub fn set(&self, state: &mut SettingsSharedData, settings: &Vec<SettingInfo>) -> (r: (
        SettingsResponse,
        Vec<Delivery>,
    ))
        requires
            old(state).wf(),
        ensures
            final(state).wf(),
            !grants(self.origin(), "settings:write"@) ==> r.0@ == ResponseView::PermissionError(
                "settings:write"@,
                "set settings"@,
            ) && r.1@.len() == 0 && *final(state) == *old(state),
            grants(self.origin(), "settings:write"@) ==> {
                &&& r.0@ == ResponseView::SetSuccess
                &&& final(state).db.settings() == apply_updates(
                    old(state).db.settings(),
                    settings@.map_values(|e: SettingInfo| e@),
                )
                &&& final(state).dispatchers == old(state).dispatchers
                &&& final(state).observers == old(state).observers
                &&& r.1@.map_values(|d: Delivery| d@) == all_notifications(
                    old(state).dispatchers.registrations(),
                    old(state).observers.observers(),
                    settings@.map_values(|e: SettingInfo| e@),
                )
            },
            forall|i: int| 0 <= i < r.1@.len() ==> (#[trigger] r.1@[i]).message@.kind == MessageType::Event,
    {
        if !self.has_permission("settings:write", "set setting") {
            return (permission_error("settings:write", "set settings"), Vec::new());
        }
        let ghost regs = state.dispatchers.registrations();
        let ghost obs = state.observers.observers();
        let events = state.set_and_notify(settings);
        proof {
            lemma_notifications_are_events(regs, obs, settings@.map_values(|e: SettingInfo| e@));
            assert forall|i: int| 0 <= i < events@.len() implies (#[trigger] events@[i]).message@.kind
                == MessageType::Event by {
                assert(events@.map_values(|d: Delivery| d@)[i] == events@[i]@);
            }
        }
        (SettingsResponse::SetSuccess, events)
    }

    /// The settings that `names` asks for.
    pub fn get_batch(&self, state: &SettingsSharedData, names: &Vec<String>) -> (r: SettingsResponse)
        requires
            state.wf(),
        ensures
            !grants(self.origin(), "settings:read"@) ==> r@ == ResponseView::PermissionError(
                "settings:read"@,
                "get batch of settings"@,
            ),
            grants(self.origin(), "settings:read"@) ==> r@ == ResponseView::GetBatchSuccess(
                batch_of(state.db.settings(), names@.map_values(|n: String| n@)),
            ),
    {
        if !self.has_permission("settings:read", "get batch of settings") {
            return permission_error("settings:read", "get batch of settings");
        }
        SettingsResponse::GetBatchSuccess(state.db.get_batch(names))
    }

    /// Tracks a new observer object of the setting `name` for the client and
    /// registers it; answers with the object's id, as `add_observer_done` says.
    pub fn add_observer(&mut self, state: &mut SettingsSharedData, name: String) -> (r:
        SettingsResponse)
        requires
            old(self).wf(),
            old(state).wf(),
        ensures
            final(self).wf(),
            final(state).wf(),
            add_observer_done(*old(self), *old(state), name@, r@, *final(self), *final(state)),
    {
        if !self.has_permission("settings:read", "add setting observer") {
            return permission_error("settings:read", "add setting observer");
        }
        let ghost proxies0 = self.proxy_tracker.objects();
        let object = match self.proxy_tracker.track(name.clone()) {
            Some(object) => object,
            None => {
                proof {
                    assert(self.proxies() =~= old(self).proxies());
                }
                return SettingsResponse::AddObserverError;
            },
        };
        proof {
            assert(self.proxies() =~= old(self).proxies().insert(object, name@));
            assert forall|i: int| 0 <= i < self.observers@.len() implies (#[trigger] self.observers@[i]).0
                != object by {
                assert(proxies0.contains_key(self.observers@[i].0));
            }
        }
        let ghost mid = *self;
        match state.observers.add(name, self.session, object) {
            Some(id) => {
                self.observers.push((object, id));
                proof {
                    assert(self.registered() == old(self).registered().push((object, id)));
                    assert forall|i: int, j: int|
                        0 <= i < j < self.observers@.len() implies (#[trigger] self.observers@[i]).0
                        != (#[trigger] self.observers@[j]).0 by {
                        if j == self.observers@.len() - 1 {
                            assert(mid.observers@[i].0 != object);
                        } else {
                            assert(self.observers@[i] == mid.observers@[i]);
                            assert(self.observers@[j] == mid.observers@[j]);
                        }
                    }
                    assert forall|i: int| 0 <= i < self.observers@.len() implies self.proxy_tracker.objects().contains_key(
                        (#[trigger] self.observers@[i]).0,
                    ) by {
                        if i < mid.observers@.len() {
                            assert(self.observers@[i] == mid.observers@[i]);
                        }
                    }
                }
                SettingsResponse::AddObserverSuccess(object)
            },
            None => {
                self.proxy_tracker.release(object);
                proof {
                    assert(self.proxy_tracker.objects() =~= proxies0);
                    assert(self.proxies() =~= old(self).proxies());
                }
                SettingsResponse::AddObserverError
            },
        }
    }

    /// Index of the registration of observer object `object`, if any.
    fn registration_index(&self, object: u32) -> (r: Option<usize>)
        ensures
            match r {
                Some(i) => i < self.registered().len() && self.registered()[i as int].0 == object,
                None => forall|j: int|
                    0 <= j < self.registered().len() ==> (#[trigger] self.registered()[j]).0
                        != object,
            },
    {
        let n = self.observers.len();
        let mut i: usize = 0;
        while i < n
            invariant
                n == self.observers@.len(),
                i <= n,
                forall|j: int| 0 <= j < i ==> (#[trigger] self.registered()[j]).0 != object,
            decreases n - i,
        {
            if self.observers[i].0 == object {
                return Some(i);
            }
            i = i + 1;
        }
        None
    }

    /// Removes the registration at index `i`, in this instance and in the
    /// shared registry.
    fn unregister_at(&mut self, state: &mut SettingsSharedData, i: usize)
        requires
            old(self).wf(),
            old(state).wf(),
            i < old(self).registered().len(),
        ensures
            final(self).wf(),
            final(state).wf(),
            same_identity(*old(self), *final(self)),
            final(self).proxies() == old(self).proxies(),
            final(self).issued() == old(self).issued(),
            final(self).registered() == old(self).registered().remove(i as int),
            final(state).db == old(state).db,
            final(state).dispatchers == old(state).dispatchers,
            final(state).observers.issued() == old(state).observers.issued(),
            forall|x: ObserverView|
                #![trigger final(state).observers.observers().contains(x)]
                final(state).observers.observers().contains(x) <==> (old(
                    state,
                ).observers.observers().contains(x) && x.id != old(self).registered()[i as int].1),
    {
        let ghost before = self.observers@;
        let (_, id) = self.observers.remove(i);
        state.observers.remove(id);
        proof {
            let after = self.observers@;
            assert(after =~= before.remove(i as int));
            assert forall|a: int, b: int|
                0 <= a < b < after.len() implies (#[trigger] after[a]).0 != (#[trigger] after[b]).0 by {
                let a0 = if a < i { a } else { a + 1 };
                let b0 = if b < i { b } else { b + 1 };
                assert(after[a] == before[a0]);
                assert(after[b] == before[b0]);
            }
            assert forall|a: int| 0 <= a < after.len() implies self.proxy_tracker.objects().contains_key(
                (#[trigger] after[a]).0,
            ) by {
                let a0 = if a < i { a } else { a + 1 };
                assert(after[a] == before[a0]);
            }
        }
    }

    /// Unregisters observer object `observer`; it stays tracked until the
    /// client releases it. As `remove_observer_done` says.
    pub fn remove_observer(
        &mut self,
        state: &mut SettingsSharedData,
        name: String,
        observer: u32,
    ) -> (r: SettingsResponse)
        requires
            old(self).wf(),
            old(state).wf(),
        ensures
            final(self).wf(),
            final(state).wf(),
            remove_observer_done(*old(self), *old(state), observer, r@, *final(self), *final(state)),
    {
        if !self.has_permission("settings:read", "remove setting observer") {
            return permission_error("settings:read", "remove setting observer");
        }
        if !self.proxy_tracker.contains(observer) {
            proof {
                assert(!old(self).proxies().contains_key(observer));
            }
            return SettingsResponse::RemoveObserverError;
        }
        match self.registration_index(observer) {
            Some(i) => {
                proof {
                    self.lemma_registration_unique(i as int, observer);
                }
                self.unregister_at(state, i);
                SettingsResponse::RemoveObserverSuccess
            },
            None => SettingsResponse::RemoveObserverError,
        }
    }

    proof fn lemma_registration_unique(&self, i: int, object: u32)
        requires
            self.wf(),
            0 <= i < self.registered().len(),
            self.registered()[i].0 == object,
        ensures
            forall|j: int|
                0 <= j < self.registered().len() && (#[trigger] self.registered()[j]).0 == object
                    ==> j == i,
    {
        assert forall|j: int|
            0 <= j < self.registered().len() && (#[trigger] self.registered()[j]).0 == object implies j
            == i by {
            if j < i {
                assert(self.observers@[j].0 != self.observers@[i].0);
            } else if j > i {
                assert(self.observers@[i].0 != self.observers@[j].0);
            }
        }
    }

    /// The client dropped observer object `object_id`: forget it and its
    /// registration. Returns whether it was tracked; as `release_done` says.
    pub fn release_object(&mut self, state: &mut SettingsSharedData, object_id: u32) -> (r: bool)
        requires
            old(self).wf(),
            old(state).wf(),
        ensures
            final(self).wf(),
            final(state).wf(),
            release_done(*old(self), *old(state), object_id, r, *final(self), *final(state)),
    {
        let found = self.registration_index(object_id);
        match found {
            Some(i) => {
                proof {
                    self.lemma_registration_unique(i as int, object_id);
                }
                self.unregister_at(state, i);
            },
            None => {},
        }
        let ghost mid = *self;
        let released = self.proxy_tracker.release(object_id);
        proof {
            assert(self.proxies() =~= old(self).proxies().remove(object_id));
            assert forall|a: int| 0 <= a < self.observers@.len() implies self.proxy_tracker.objects().contains_key(
                (#[trigger] self.observers@[a]).0,
            ) by {
                assert(mid.proxy_tracker.objects().contains_key(self.observers@[a].0));
                assert(self.observers@[a].0 != object_id);
            }
        }
        released
    }

    /// Ends this instance: unregisters its dispatcher and every observer it
    /// registered; every other registration stays.
    pub fn teardown(self, state: &mut SettingsSharedData)
        requires
            old(state).wf(),
        ensures
            final(state).wf(),
            final(state).db == old(state).db,
            forall|x: crate::events::Registration|
                #![trigger final(state).dispatchers.registrations().contains(x)]
                final(state).dispatchers.registrations().contains(x) <==> (old(
                    state,
                ).dispatchers.registrations().contains(x) && x.id != self.dispatcher()),
            forall|x: ObserverView|
                #![trigger final(state).observers.observers().contains(x)]
                final(state).observers.observers().contains(x) <==> (old(
                    state,
                ).observers.observers().contains(x) && !registers_id(self.registered(), x.id)),
    {
        state.dispatchers.remove(self.dispatcher_id);
        let ghost obs0 = state.observers.observers();
        let n = self.observers.len();
        let mut i: usize = 0;
        while i < n
            invariant
                n == self.observers@.len(),
                i <= n,
                state.wf(),
                state.db == old(state).db,
                forall|x: crate::events::Registration|
                    #![trigger state.dispatchers.registrations().contains(x)]
                    state.dispatchers.registrations().contains(x) <==> (old(
                        state,
                    ).dispatchers.registrations().contains(x) && x.id != self.dispatcher_id),
                forall|x: ObserverView|
                    #![trigger state.observers.observers().contains(x)]
                    state.observers.observers().contains(x) <==> (obs0.contains(x)
                        && !registers_id(self.registered().subrange(0, i as int), x.id)),
            decreases n - i,
        {
            let ghost o1 = state.observers.observers();
            state.observers.remove(self.observers[i].1);
            proof {
                let reg = self.registered();
                assert forall|x: ObserverView| state.observers.observers().contains(x) <==> (obs0.contains(x)
                    && !registers_id(reg.subrange(0, i + 1), x.id)) by {
                    if registers_id(reg.subrange(0, i + 1), x.id) {
                        let j = choose|j: int| 0 <= j < i + 1 && (#[trigger] reg.subrange(0, i + 1)[j]).1 == x.id;
                        if j < i {
                            assert(reg.subrange(0, i as int)[j] == reg.subrange(0, i + 1)[j]);
                        }
                    }
                    if registers_id(reg.subrange(0, i as int), x.id) {
                        let j = choose|j: int| 0 <= j < i && (#[trigger] reg.subrange(0, i as int)[j]).1 == x.id;
                        assert(reg.subrange(0, i + 1)[j] == reg.subrange(0, i as int)[j]);
                    }
                    if x.id == reg[i as int].1 {
                        assert(reg.subrange(0, i + 1)[i as int] == reg[i as int]);
                    }
                }
            }
            i = i + 1;
        }
        proof {
            assert(self.registered().subrange(0, n as int) =~= self.registered());
        }
    }
}

/// Whether some registration of `regs` has registration id `id`.
pub open spec fn registers_id(regs: Seq<(u32, u32)>, id: u32) -> bool {
    exists|j: int| 0 <= j < regs.len() && (#[trigger] regs[j]).1 == id
}

/// `b` is the same instance as `a`: same service, session, origin and
/// dispatcher.
pub open spec fn same_identity(a: SettingsService, b: SettingsService) -> bool {
    &&& b.service_id() == a.service_id()
    &&& b.session() == a.session()
    &&& b.origin() == a.origin()
    &&& b.dispatcher() == a.dispatcher()
}

/// What `add_observer` does, from instance `s0` and shared state `st0` to
/// answer `r`, instance `s1` and state `st1`. Without the permission it
/// refuses and changes nothing. When the tracker or the registry has no id
/// left it fails and nothing that the client sees changes. Otherwise the
/// tracker's next id becomes the observer object, registered under the
/// registry's next id.
pub open spec fn add_observer_done(
    s0: SettingsService,
    st0: SettingsSharedData,
    name: Seq<char>,
    r: ResponseView,
    s1: SettingsService,
    st1: SettingsSharedData,
) -> bool {
    &&& same_identity(s0, s1)
    &&& st1.db == st0.db
    &&& st1.dispatchers == st0.dispatchers
    &&& s0.issued() <= s1.issued()
    &&& if !grants(s0.origin(), "settings:read"@) {
        r == ResponseView::PermissionError("settings:read"@, "add setting observer"@) && st1 == st0
            && s1 == s0
    } else if s0.issued() > u32::MAX || st0.observers.issued() > u32::MAX {
        &&& r == ResponseView::AddObserverError
        &&& s1.proxies() == s0.proxies()
        &&& s1.registered() == s0.registered()
        &&& st1.observers.observers() == st0.observers.observers()
    } else {
        let object = s0.issued() as u32;
        let id = st0.observers.issued() as u32;
        &&& r == ResponseView::AddObserverSuccess(object)
        &&& s1.issued() == s0.issued() + 1
        &&& !s0.proxies().contains_key(object)
        &&& s1.proxies() == s0.proxies().insert(object, name)
        &&& s1.registered() == s0.registered().push((object, id))
        &&& st1.observers.observers() == st0.observers.observers().push(
            ObserverView { id, name, session: s0.session(), object },
        )
    }
}

/// What `remove_observer` does: without the permission it refuses and
/// changes nothing; for a tracked and registered object it drops that
/// registration here and in the registry; otherwise it fails and changes
/// nothing. The object stays tracked either way.
pub open spec fn remove_observer_done(
    s0: SettingsService,
    st0: SettingsSharedData,
    observer: u32,
    r: ResponseView,
    s1: SettingsService,
    st1: SettingsSharedData,
) -> bool {
    &&& same_identity(s0, s1)
    &&& s1.proxies() == s0.proxies()
    &&& s1.issued() == s0.issued()
    &&& st1.db == st0.db
    &&& st1.dispatchers == st0.dispatchers
    &&& if !grants(s0.origin(), "settings:read"@) {
        r == ResponseView::PermissionError("settings:read"@, "remove setting observer"@) && st1
            == st0 && s1 == s0
    } else if s0.proxies().contains_key(observer) && exists|i: int|
        0 <= i < s0.registered().len() && (#[trigger] s0.registered()[i]).0 == observer {
        &&& r == ResponseView::RemoveObserverSuccess
        &&& forall|i: int|
            0 <= i < s0.registered().len() && (#[trigger] s0.registered()[i]).0 == observer ==> {
                &&& s1.registered() == s0.registered().remove(i)
                &&& forall|x: ObserverView|
                    #![trigger st1.observers.observers().contains(x)]
                    st1.observers.observers().contains(x) <==> (st0.observers.observers().contains(x)
                        && x.id != s0.registered()[i].1)
            }
    } else {
        &&& r == ResponseView::RemoveObserverError
        &&& s1.registered() == s0.registered()
        &&& st1.observers == st0.observers
    }
}

/// What `release_object` does: answers whether `object` was tracked, stops
/// tracking it, and drops its registration here and in the registry if it
/// has one.
pub open spec fn release_done(
    s0: SettingsService,
    st0: SettingsSharedData,
    object: u32,
    r: bool,
    s1: SettingsService,
    st1: SettingsSharedData,
) -> bool {
    &&& same_identity(s0, s1)
    &&& st1.db == st0.db
    &&& st1.dispatchers == st0.dispatchers
    &&& r == s0.proxies().contains_key(object)
    &&& s1.proxies() == s0.proxies().remove(object)
    &&& s1.issued() == s0.issued()
    &&& forall|i: int|
        0 <= i < s0.registered().len() && (#[trigger] s0.registered()[i]).0 == object ==> {
            &&& s1.registered() == s0.registered().remove(i)
            &&& forall|x: ObserverView|
                #![trigger st1.observers.observers().contains(x)]
                st1.observers.observers().contains(x) <==> (st0.observers.observers().contains(x)
                    && x.id != s0.registered()[i].1)
        }
    &&& (forall|i: int|
        0 <= i < s0.registered().len() ==> (#[trigger] s0.registered()[i]).0 != object) ==> s1.registered()
        == s0.registered() && st1.observers == st0.observers
}

/// The answer to a read of `name` from the settings `m`.
pub open spec fn get_answer(m: Map<Seq<char>, Seq<char>>, name: Seq<char>) -> ResponseView {
    if m.contains_key(name) {
        ResponseView::GetSuccess(SettingView { name, value: m[name] })
    } else {
        ResponseView::GetError(name, GetErrorReason::NonExistingSetting)
    }
}

/// The permission a request needs, with the words that name the refused
/// operation; `None` for requests that need none.
pub open spec fn required_permission(req: RequestView) -> Option<(Seq<char>, Seq<char>)> {
    match req {
        RequestView::Clear => Some(("settings:write"@, "clear settings"@)),
        RequestView::Get(_) => Some(("settings:read"@, "get settings"@)),
        RequestView::SetBatch(_) => Some(("settings:write"@, "set settings"@)),
        RequestView::GetBatch(_) => Some(("settings:read"@, "get batch of settings"@)),
        RequestView::AddObserver(_) => Some(("settings:read"@, "add setting observer"@)),
        RequestView::RemoveObserver(_, _) => Some(("settings:read"@, "remove setting observer"@)),
        RequestView::ReleaseObject(_) => None,
    }
}

/// The answer to a request that only reads or writes the store, given
/// the settings `m` before it.
pub open spec fn store_answer(m: Map<Seq<char>, Seq<char>>, req: RequestView) -> Option<ResponseView> {
    match req {
        RequestView::Clear => Some(ResponseView::ClearSuccess),
        RequestView::Get(n) => Some(get_answer(m, n)),
        RequestView::SetBatch(_) => Some(ResponseView::SetSuccess),
        RequestView::GetBatch(names) => Some(ResponseView::GetBatchSuccess(batch_of(m, names))),
        _ => None,
    }
}

/// The settings after a granted request, given the settings `m` before it.
pub open spec fn store_after(m: Map<Seq<char>, Seq<char>>, req: RequestView) -> Map<
    Seq<char>,
    Seq<char>,
> {
    match req {
        RequestView::Clear => Map::empty(),
        RequestView::SetBatch(v) => apply_updates(m, v),
        _ => m,
    }
}

/// The events that a granted request causes.
pub open spec fn store_events(
    regs: Seq<crate::events::Registration>,
    obs: Seq<ObserverView>,
    req: RequestView,
) -> Seq<(u32, MessageView)> {
    match req {
        RequestView::SetBatch(v) => all_notifications(regs, obs, v),
        _ => seq![],
    }
}

/// The response envelope that carries `content`.
pub open spec fn response_message(service: u32, object: u32, content: Seq<u8>) -> MessageView {
    MessageView { service, object, kind: MessageType::Response, content }
}

impl SettingsService {
    /// Handles one request of the client: decodes it, performs it, and
    /// returns the response to this session followed by the events it
    /// causes. A payload that does not decode is dropped: nothing is
    /// answered and nothing changes.
    pub fn on_request(&mut self, state: &mut SettingsSharedData, message: &BaseMessage) -> (r: Vec<
        Delivery,
    >)
        requires
            old(self).wf(),
            old(state).wf(),
        ensures
            final(self).wf(),
            final(state).wf(),
            final(self).service_id() == old(self).service_id(),
            final(self).session() == old(self).session(),
            final(self).origin() == old(self).origin(),
            final(self).dispatcher() == old(self).dispatcher(),
            parse_request(message.content@) is Err ==> r@.len() == 0 && *final(self) == *old(self)
                && *final(state) == *old(state),
            parse_request(message.content@) is Ok ==> r@.len() >= 1 && r@[0].session == old(self).session() && r@[0].message@.service == old(self).service_id()
                && r@[0].message@.object == message.object && r@[0].message@.kind
                == MessageType::Response,
            forall|i: int| 1 <= i < r@.len() ==> (#[trigger] r@[i]).message@.kind == MessageType::Event,
            match parse_request(message.content@) {
                Ok(RequestView::AddObserver(n)) => r@.len() == 1 && exists|a: ResponseView|
                    #![trigger response_bytes(a)]
                    r@[0].message@.content == response_bytes(a) && add_observer_done(
                        *old(self),
                        *old(state),
                        n,
                        a,
                        *final(self),
                        *final(state),
                    ),
                Ok(RequestView::RemoveObserver(_, o)) => r@.len() == 1 && exists|a: ResponseView|
                    #![trigger response_bytes(a)]
                    r@[0].message@.content == response_bytes(a) && remove_observer_done(
                        *old(self),
                        *old(state),
                        o,
                        a,
                        *final(self),
                        *final(state),
                    ),
                Ok(RequestView::ReleaseObject(o)) => {
                    &&& r@.len() == 1
                    &&& r@[0].message@.content == response_bytes(
                        if old(self).proxies().contains_key(o) {
                            ResponseView::ReleaseObjectSuccess
                        } else {
                            ResponseView::ReleaseObjectError
                        },
                    )
                    &&& release_done(
                        *old(self),
                        *old(state),
                        o,
                        old(self).proxies().contains_key(o),
                        *final(self),
                        *final(state),
                    )
                },
                _ => true,
            },
            match parse_request(message.content@) {
                Ok(req) => match required_permission(req) {
                    Some((perm, why)) => !grants(old(self).origin(), perm) ==> {
                        &&& r@.map_values(|d: Delivery| d@) == seq![
                            (
                                old(self).session(),
                                response_message(
                                    old(self).service_id(),
                                    message.object,
                                    response_bytes(ResponseView::PermissionError(perm, why)),
                                ),
                            ),
                        ]
                        &&& *final(state) == *old(state)
                        &&& *final(self) == *old(self)
                    },
                    None => true,
                },
                Err(_) => true,
            },
            match parse_request(message.content@) {
                Ok(req) => match (required_permission(req), store_answer(old(state).db.settings(), req)) {
                    (Some((perm, _)), Some(answer)) => grants(old(self).origin(), perm) ==> {
                        &&& r@.map_values(|d: Delivery| d@) == seq![
                            (
                                old(self).session(),
                                response_message(
                                    old(self).service_id(),
                                    message.object,
                                    response_bytes(answer),
                                ),
                            ),
                        ] + store_events(
                            old(state).dispatchers.registrations(),
                            old(state).observers.observers(),
                            req,
                        )
                        &&& final(state).db.settings() == store_after(old(state).db.settings(), req)
                        &&& final(state).dispatchers == old(state).dispatchers
                        &&& final(state).observers == old(state).observers
                    },
                    _ => true,
                },
                Err(_) => true,
            },
    {
        let req = match decode_request(message.content.as_slice()) {
            Ok(req) => req,
            Err(_) => return Vec::new(),
        };
        let (resp, mut events) = match req {
            SettingsRequest::Clear => (self.clear(state), Vec::new()),
            SettingsRequest::Get(name) => (self.get(state, name), Vec::new()),
            SettingsRequest::SetBatch(v) => self.set(state, &v),
            SettingsRequest::GetBatch(names) => (self.get_batch(state, &names), Vec::new()),
            SettingsRequest::AddObserver(name) => (self.add_observer(state, name), Vec::new()),
            SettingsRequest::RemoveObserver(name, observer) => (
                self.remove_observer(state, name, observer),
                Vec::new(),
            ),
            SettingsRequest::ReleaseObject(object) => {
                let found = self.release_object(state, object);
                let resp = if found {
                    SettingsResponse::ReleaseObjectSuccess
                } else {
                    SettingsResponse::ReleaseObjectError
                };
                (resp, Vec::new())
            },
        };
        let ghost rest = events@;
        let response = Delivery {
            session: self.session,
            message: BaseMessage {
                service: self.id,
                object: message.object,
                kind: MessageType::Response,
                content: encode_response(&resp),
            },
        };
        let mut out: Vec<Delivery> = Vec::new();
        out.push(response);
        out.append(&mut events);
        proof {
            assert(out@.map_values(|d: Delivery| d@) =~= seq![response@] + rest.map_values(
                |d: Delivery| d@,
            ));
            assert(rest.len() == 0 ==> rest.map_values(|d: Delivery| d@) =~= seq![]);
            assert(out@[0] == response);
            assert forall|i: int| 1 <= i < out@.len() implies (#[trigger] out@[i]).message@.kind
                == MessageType::Event by {
                assert(out@.map_values(|d: Delivery| d@)[i] == out@[i]@);
                assert(out@.map_values(|d: Delivery| d@)[i] == rest.map_values(|d: Delivery| d@)[i - 1]);
                assert(rest.map_values(|d: Delivery| d@)[i - 1] == rest[i - 1]@);
            }
        }
        out
    }
}

} // verus!
