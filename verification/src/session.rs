//! Session state and the reducer that folds inbound frames into it.
//!
//! The state holds the roster of online users and the append-only message
//! log. The reducer is the one place that mutates it: a `Users` envelope
//! replaces the roster wholesale, a `Message` envelope with a valid payload
//! appends to the log, everything else (a `Register` echo, a malformed
//! frame, a malformed payload) leaves the state untouched and reports why.
//! All errors are local-recoverable: the session stays usable after any bad
//! frame.

use vstd::prelude::*;

use crate::codec::decode_chat_message;
use crate::codec::decode_envelope;
use crate::wire::enc_chat_message;
use crate::wire::enc_envelope;
use crate::wire::ChatMessage;
use crate::wire::ChatMessageView;
use crate::wire::Envelope;
use crate::wire::EnvelopeView;
use crate::wire::MsgTypes;
use crate::wire::SessionError;
use crate::wire::UserProfile;
use crate::wire::UserProfileView;

verus! {

/// The avatar URL template: a pure function of the user name. The template
/// is a version-pinned contract with the avatar-rendering service; the name
/// is substituted verbatim into the path segment.
pub open spec fn avatar_url_spec(name: Seq<char>) -> Seq<char> {
    "https://avatars.dicebear.com/api/adventurer-neutral/"@ + name + ".svg"@
}

/// Derives the avatar URL of a user name.
pub fn avatar_url(name: &str) -> (r: String)
    ensures
        r@ == avatar_url_spec(name@),
{
    let mut out = String::new();
    out.append("https://avatars.dicebear.com/api/adventurer-neutral/");
    out.append(name);
    out.append(".svg");
    proof {
        assert(out@ =~= avatar_url_spec(name@));
    }
    out
}

/// The profile derived from a user name: the name itself and its templated
/// avatar URL. Profiles are never transmitted, only derived.
pub open spec fn profile_of(name: Seq<char>) -> UserProfileView {
    UserProfileView { name: name, avatar: avatar_url_spec(name) }
}

/// Mathematical view of a [`SessionState`].
pub struct SessionStateView {
    pub roster: Seq<UserProfileView>,
    pub log: Seq<ChatMessageView>,
}

/// The session state: the current roster and the message log. Created empty
/// at session start and mutated only by the reducer.
pub struct SessionState {
    pub roster: Vec<UserProfile>,
    pub log: Vec<ChatMessage>,
}

impl View for SessionState {
    type V = SessionStateView;

    open spec fn view(&self) -> SessionStateView {
        SessionStateView {
            roster: self.roster@.map_values(|p: UserProfile| p@),
            log: self.log@.map_values(|m: ChatMessage| m@),
        }
    }
}

/// Whether a `Message` envelope's `data` field decodes to a chat message.
pub open spec fn payload_ok(d: Option<Seq<char>>) -> bool {
    d is Some && exists|m: ChatMessageView| d->0 == enc_chat_message(m)
}

/// The chat message inside a valid `Message` payload.
pub open spec fn payload_msg(d: Option<Seq<char>>) -> ChatMessageView {
    choose|m: ChatMessageView| d->0 == enc_chat_message(m)
}

/// The roster a `Users` envelope dictates: one profile per name, in the
/// server's order; an absent `dataArray` counts as an empty roster.
pub open spec fn roster_of(a: Option<Seq<Seq<char>>>) -> Seq<UserProfileView> {
    match a {
        Option::None => Seq::empty(),
        Option::Some(v) => v.map_values(|n: Seq<char>| profile_of(n)),
    }
}

/// One step of the session reducer: the state after an inbound envelope.
/// `Users` replaces the roster, a valid `Message` appends to the log, and
/// everything else leaves the state as it was.
pub open spec fn spec_reduce(st: SessionStateView, e: EnvelopeView) -> SessionStateView {
    match e.message_type {
        MsgTypes::Users => SessionStateView { roster: roster_of(e.data_array), log: st.log },
        MsgTypes::Message => if payload_ok(e.data) {
            SessionStateView { roster: st.roster, log: st.log.push(payload_msg(e.data)) }
        } else {
            st
        },
        MsgTypes::Register => st,
    }
}

/// Whether a step makes the UI re-render.
pub open spec fn spec_signal(e: EnvelopeView) -> bool {
    match e.message_type {
        MsgTypes::Users => true,
        MsgTypes::Message => payload_ok(e.data),
        MsgTypes::Register => false,
    }
}

/// Whether a text is the canonical encoding of some envelope.
pub open spec fn envelope_text(s: Seq<char>) -> bool {
    exists|e: EnvelopeView| s == enc_envelope(e)
}

/// The envelope a canonical text encodes.
pub open spec fn env_of(s: Seq<char>) -> EnvelopeView {
    choose|e: EnvelopeView| s == enc_envelope(e)
}

impl SessionState {
    /// A fresh session: empty roster, empty log.
    pub fn new() -> (r: SessionState)
        ensures
            r@.roster.len() == 0,
            r@.log.len() == 0,
    {
        SessionState { roster: Vec::new(), log: Vec::new() }
    }

    /// Applies one decoded envelope to the state. The new state is exactly
    /// `spec_reduce` of the old; the result carries the re-render signal, or
    /// `MalformedPayload` exactly when a `Message` envelope's payload does
    /// not decode (in which case nothing changes).
    pub fn reduce_envelope(&mut self, env: &Envelope) -> (r: Result<bool, SessionError>)
        ensures
            final(self)@ == spec_reduce(old(self)@, env@),
            match r {
                Result::Ok(render) => render == spec_signal(env@) && !(env@.message_type
                    == MsgTypes::Message && !payload_ok(env@.data)),
                Result::Err(e) => e == SessionError::MalformedPayload && env@.message_type
                    == MsgTypes::Message && !payload_ok(env@.data),
            },
    {
        match env.message_type {
            MsgTypes::Users => {
                let mut roster: Vec<UserProfile> = Vec::new();
                match &env.data_array {
                    Option::None => {
                        proof {
                            assert(roster@.map_values(|p: UserProfile| p@) =~= roster_of(
                                env@.data_array,
                            ));
                        }
                    },
                    Option::Some(names) => {
                        let ghost namesv: Seq<Seq<char>> = names@.map_values(|s: String| s@);
                        let n = names.len();
                        let mut i: usize = 0;
                        proof {
                            assert(roster@.map_values(|p: UserProfile| p@) =~= namesv.take(
                                0,
                            ).map_values(|nm: Seq<char>| profile_of(nm)));
                        }
                        while i < n
                            invariant
                                n == names.len(),
                                i <= n,
                                namesv == names@.map_values(|s: String| s@),
                                namesv.len() == n,
                                roster@.map_values(|p: UserProfile| p@) == namesv.take(
                                    i as int,
                                ).map_values(|nm: Seq<char>| profile_of(nm)),
                            decreases n - i,
                        {
                            let name = names[i].clone();
                            let avatar = avatar_url(names[i].as_str());
                            let ghost prev: Seq<UserProfile> = roster@;
                            roster.push(UserProfile { name, avatar });
                            proof {
                                let f = |p: UserProfile| p@;
                                let g = |nm: Seq<char>| profile_of(nm);
                                assert(roster@ == prev.push(roster@.last()));
                                assert(roster@.last()@ == profile_of(namesv[i as int]));
                                assert(roster@.map_values(f) =~= prev.map_values(f).push(
                                    roster@.last()@,
                                ));
                                assert(namesv.take(i + 1 as int).map_values(g) =~= namesv.take(
                                    i as int,
                                ).map_values(g).push(profile_of(namesv[i as int])));
                                assert(roster@.map_values(f) =~= namesv.take(i + 1 as int)
                                    .map_values(g));
                            }
                            i = i + 1;
                        }
                        proof {
                            assert(namesv.take(n as int) =~= namesv);
                            assert(roster_of(env@.data_array) == namesv.map_values(
                                |nm: Seq<char>| profile_of(nm),
                            ));
                        }
                    },
                }
                self.roster = roster;
                proof {
                    assert(self@ == spec_reduce(old(self)@, env@));
                }
                Result::Ok(true)
            },
            MsgTypes::Register => {
                proof {
                    assert(self@ == spec_reduce(old(self)@, env@));
                }
                Result::Ok(false)
            },
            MsgTypes::Message => {
                match &env.data {
                    Option::None => {
                        proof {
                            assert(!payload_ok(env@.data));
                            assert(self@ == spec_reduce(old(self)@, env@));
                        }
                        Result::Err(SessionError::MalformedPayload)
                    },
                    Option::Some(d) => {
                        match decode_chat_message(d.as_str()) {
                            Result::Ok(m) => {
                                let ghost mv: ChatMessageView = m@;
                                self.log.push(m);
                                proof {
                                    assert(payload_ok(env@.data));
                                    assert(payload_msg(env@.data) == mv);
                                    assert(self@.log =~= old(self)@.log.push(mv));
                                    assert(self@.roster =~= old(self)@.roster);
                                    assert(self@ == spec_reduce(old(self)@, env@));
                                }
                                Result::Ok(true)
                            },
                            Result::Err(_) => {
                                proof {
                                    assert(!payload_ok(env@.data));
                                    assert(self@ == spec_reduce(old(self)@, env@));
                                }
                                Result::Err(SessionError::MalformedPayload)
                            },
                        }
                    },
                }
            },
        }
    }

    /// Applies one raw inbound frame: decodes it, then reduces. A text that
    /// is no envelope leaves the state exactly as it was and reports
    /// `MalformedEnvelope`; the session stays usable.
    pub fn reduce_raw(&mut self, raw: &str) -> (r: Result<bool, SessionError>)
        ensures
            final(self)@ == if envelope_text(raw@) {
                spec_reduce(old(self)@, env_of(raw@))
            } else {
                old(self)@
            },
            match r {
                Result::Ok(render) => envelope_text(raw@) && render == spec_signal(env_of(raw@))
                    && !(env_of(raw@).message_type == MsgTypes::Message && !payload_ok(
                    env_of(raw@).data,
                )),
                Result::Err(e) => if envelope_text(raw@) {
                    e == SessionError::MalformedPayload && env_of(raw@).message_type
                        == MsgTypes::Message && !payload_ok(env_of(raw@).data)
                } else {
                    e == SessionError::MalformedEnvelope
                },
            },
    {
        match decode_envelope(raw) {
            Result::Ok(env) => {
                proof {
                    assert(envelope_text(raw@));
                    assert(env_of(raw@) == env@);
                }
                self.reduce_envelope(&env)
            },
            Result::Err(_) => {
                proof {
                    assert(!envelope_text(raw@));
                }
                Result::Err(SessionError::MalformedEnvelope)
            },
        }
    }

    /// The first roster index bearing the given name, if the name is online.
    pub fn find_user(&self, name: &str) -> (r: Option<usize>)
        ensures
            match r {
                Option::Some(k) => k < self@.roster.len() && self@.roster[k as int].name == name@
                    && (forall|j: int| 0 <= j < k ==> self@.roster[j].name != name@),
                Option::None => forall|j: int|
                    0 <= j < self@.roster.len() ==> self@.roster[j].name != name@,
            },
    {
        let name_s = name.to_owned();
        let n = self.roster.len();
        let mut k: usize = 0;
        while k < n
            invariant
                n == self@.roster.len(),
                k <= n,
                name_s@ == name@,
                forall|j: int| 0 <= j < k ==> self@.roster[j].name != name@,
            decreases n - k,
        {
            if self.roster[k].name == name_s {
                return Option::Some(k);
            }
            k = k + 1;
        }
        Option::None
    }

    /// The profile to render a message's sender with: the first matching
    /// roster entry, or a placeholder profile derived from the name when the
    /// sender is unknown. The flag says whether the sender was found; a
    /// missing sender is the `UnknownSender` condition, to be logged, never
    /// a fault.
    pub fn sender_profile(&self, name: &str) -> (r: (UserProfile, bool))
        ensures
            r.1 == exists|j: int| 0 <= j < self@.roster.len() && self@.roster[j].name == name@,
            r.1 ==> exists|j: int|
                0 <= j < self@.roster.len() && self@.roster[j].name == name@ && r.0@
                    == self@.roster[j],
            !r.1 ==> r.0@ == profile_of(name@),
    {
        match self.find_user(name) {
            Option::Some(k) => {
                let p = UserProfile {
                    name: self.roster[k].name.clone(),
                    avatar: self.roster[k].avatar.clone(),
                };
                (p, true)
            },
            Option::None => {
                (UserProfile { name: name.to_owned(), avatar: avatar_url(name) }, false)
            },
        }
    }
}

/// Whether a message's text ends in `.gif`, in which case the UI renders it
/// as an inline image instead of plain text. A presentation rule, derived at
/// render time, never stored.
pub open spec fn renders_as_image_spec(t: Seq<char>) -> bool {
    t.len() >= 4 && t.subrange(t.len() - 4, t.len() as int) == ".gif"@
}

/// Decides the inline-image presentation rule for a message.
pub fn renders_as_image(m: &ChatMessage) -> (r: bool)
    ensures
        r == renders_as_image_spec(m@.text),
{
    let s = m.text.as_str();
    let n = s.unicode_len();
    if n < 4 {
        return false;
    }
    let c0 = s.get_char(n - 4);
    let c1 = s.get_char(n - 3);
    let c2 = s.get_char(n - 2);
    let c3 = s.get_char(n - 1);
    let ok = c0 == '.' && c1 == 'g' && c2 == 'i' && c3 == 'f';
    proof {
        reveal_strlit(".gif");
        let t = m.text@;
        assert(t.subrange(n - 4, n as int)[0] == t[n - 4]);
        assert(t.subrange(n - 4, n as int)[1] == t[n - 3]);
        assert(t.subrange(n - 4, n as int)[2] == t[n - 2]);
        assert(t.subrange(n - 4, n as int)[3] == t[n - 1]);
        if ok {
            assert(t.subrange(n - 4, n as int) =~= ".gif"@);
        }
    }
    ok
}

/// A UI-level event, as the host's update loop sees it: an inbound raw
/// frame handed over by the bridge, or the user submitting the input field.
pub enum Msg {
    HandleMsg(String),
    SubmitMessage,
}

/// Law: the wire round trip. Every envelope's canonical text (what
/// `encode_envelope` returns) is an envelope text, and the one envelope it
/// stands for (what `decode_envelope` returns on it) is the envelope itself.
pub proof fn lemma_round_trip(e: EnvelopeView)
    ensures
        envelope_text(enc_envelope(e)),
        env_of(enc_envelope(e)) == e,
{
    assert(envelope_text(enc_envelope(e))) by {
        assert(enc_envelope(e) == enc_envelope(e));
    }
    let c = env_of(enc_envelope(e));
    assert(enc_envelope(e) == enc_envelope(c));
    crate::codec::lemma_enc_envelope_injective(c, e);
}

/// Law: replaying the same `Users` envelope twice leaves the state exactly
/// where the first application put it.
pub proof fn lemma_users_idempotent(st: SessionStateView, e: EnvelopeView)
    requires
        e.message_type == MsgTypes::Users,
    ensures
        spec_reduce(spec_reduce(st, e), e) == spec_reduce(st, e),
{
}

/// Law: a `Users` envelope fully replaces the roster, one profile per name,
/// in the server's order, each avatar drawn from the pinned template; the
/// log is untouched.
pub proof fn lemma_users_roster(st: SessionStateView, e: EnvelopeView)
    requires
        e.message_type == MsgTypes::Users,
        e.data_array is Some,
    ensures
        spec_reduce(st, e).roster.len() == e.data_array->0.len(),
        forall|k: int|
            0 <= k < e.data_array->0.len() ==> spec_reduce(st, e).roster[k] == profile_of(
                e.data_array->0[k],
            ),
        spec_reduce(st, e).log == st.log,
{
}

/// The state after a whole sequence of envelopes, in delivery order.
pub open spec fn spec_reduce_seq(st: SessionStateView, es: Seq<EnvelopeView>) -> SessionStateView
    decreases es.len(),
{
    if es.len() == 0 {
        st
    } else {
        spec_reduce_seq(spec_reduce(st, es[0]), es.drop_first())
    }
}

/// The payloads of the valid `Message` envelopes of a sequence, in order.
pub open spec fn payloads_of(es: Seq<EnvelopeView>) -> Seq<ChatMessageView>
    decreases es.len(),
{
    if es.len() == 0 {
        Seq::empty()
    } else {
        let rest = payloads_of(es.drop_first());
        if es[0].message_type == MsgTypes::Message && payload_ok(es[0].data) {
            seq![payload_msg(es[0].data)] + rest
        } else {
            rest
        }
    }
}

/// Law: over any mix of `Users` envelopes and `Message` envelopes with
/// valid payloads, the log grows by exactly the message payloads, in
/// delivery order; interleaved `Users` envelopes do not disturb it.
pub proof fn lemma_log_accumulates(st: SessionStateView, es: Seq<EnvelopeView>)
    requires
        forall|k: int|
            0 <= k < es.len() ==> (es[k].message_type == MsgTypes::Users || (es[k].message_type
                == MsgTypes::Message && payload_ok(es[k].data))),
    ensures
        spec_reduce_seq(st, es).log == st.log + payloads_of(es),
    decreases es.len(),
{
    if es.len() == 0 {
        assert(st.log + payloads_of(es) =~= st.log);
    } else {
        let st1 = spec_reduce(st, es[0]);
        assert(forall|k: int|
            0 <= k < es.drop_first().len() ==> es.drop_first()[k] == es[k + 1]);
        lemma_log_accumulates(st1, es.drop_first());
        if es[0].message_type == MsgTypes::Message && payload_ok(es[0].data) {
            assert(st1.log =~= st.log.push(payload_msg(es[0].data)));
            assert(st.log + payloads_of(es) =~= st1.log + payloads_of(es.drop_first()));
        } else {
            assert(st1.log == st.log);
            assert(st.log + payloads_of(es) =~= st1.log + payloads_of(es.drop_first()));
        }
    }
}

} // verus!
