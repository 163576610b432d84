//! Chat session state machine: the per-widget aggregate owning the roster
//! and the transcript, driven by decoded inbound envelopes and by local
//! submit intents.
//!
//! A deliberate invariant of the design: submitting a message does not touch
//! the local transcript.  The sender sees their own message only once the
//! server re-broadcasts it as an inbound `message` frame, so the transcript
//! always reflects exactly what the server has broadcast.

use vstd::prelude::*;
use vstd::string::StrSliceExecFns;
use vstd::string::StringExecFns;
use crate::codec;
use crate::codec::ChatMessage;
use crate::codec::ChatMessageV;
use crate::codec::Envelope;
use crate::codec::EnvelopeV;
use crate::codec::dec_chat;
use crate::codec::dec_env;
use crate::codec::enc_env;

verus! {

/// A roster entry: an online participant and the avatar derived from the
/// participant's name.
pub struct UserProfile {
    pub name: String,
    pub avatar: String,
}

/// Mathematical model of a roster entry.
pub struct UserProfileV {
    pub name: Seq<char>,
    pub avatar: Seq<char>,
}

impl View for UserProfile {
    type V = UserProfileV;

    open spec fn view(&self) -> UserProfileV {
        UserProfileV { name: self.name@, avatar: self.avatar@ }
    }
}

/// The avatar URL derived from a participant's name: a templated URL with
/// the name embedded.
pub open spec fn avatar_of(name: Seq<char>) -> Seq<char> {
    "https://avatars.dicebear.com/api/adventurer-neutral/"@ + name + ".svg"@
}

/// The roster entry derived from a participant's name.
pub open spec fn profile_of(name: Seq<char>) -> UserProfileV {
    UserProfileV { name: name, avatar: avatar_of(name) }
}

/// The roster derived, one entry per name and in order, from a `users` list.
pub open spec fn profiles_of(names: Seq<Seq<char>>) -> Seq<UserProfileV> {
    names.map_values(|n: Seq<char>| profile_of(n))
}

/// Builds the avatar URL for a name.
pub fn avatar_url(name: &str) -> (r: String)
    ensures
        r@ == avatar_of(name@),
{
    let mut out = String::from_str("https://avatars.dicebear.com/api/adventurer-neutral/");
    out.append(name);
    out.append(".svg");
    out
}

/// Events a mounted chat widget receives: an inbound frame handed over by
/// the event bus, or a local submit intent carrying the raw input text.
pub enum Msg {
    HandleMsg(String),
    SubmitMessage(String),
}

/// The session state: roster and transcript.
pub struct Chat {
    pub users: Vec<UserProfile>,
    pub messages: Vec<ChatMessage>,
}

/// Mathematical model of the session state.
pub struct ChatV {
    pub users: Seq<UserProfileV>,
    pub messages: Seq<ChatMessageV>,
}

impl View for Chat {
    type V = ChatV;

    open spec fn view(&self) -> ChatV {
        ChatV {
            users: self.users@.map_values(|u: UserProfile| u@),
            messages: self.messages@.map_values(|m: ChatMessage| m@),
        }
    }
}

/// One transition of the state machine on an inbound frame, with the
/// re-render flag it produces.  A frame that does not decode, an inbound
/// `register`, and a `message` with a malformed payload are dropped.
pub open spec fn step(st: ChatV, frame: Seq<char>) -> (ChatV, bool) {
    match dec_env(frame) {
        Some(EnvelopeV::Users(l)) => (ChatV { users: profiles_of(l), messages: st.messages }, true),
        Some(EnvelopeV::Message(t)) => match dec_chat(t) {
            Some(m) => (ChatV { users: st.users, messages: st.messages.push(m) }, true),
            None => (st, false),
        },
        Some(EnvelopeV::Register(_)) => (st, false),
        None => (st, false),
    }
}

/// The state after a whole sequence of inbound frames.
pub open spec fn run(st: ChatV, frames: Seq<Seq<char>>) -> ChatV
    decreases frames.len(),
{
    if frames.len() == 0 {
        st
    } else {
        run(step(st, frames[0]).0, frames.skip(1))
    }
}

impl Chat {
    /// Mounts a session for the given local identity: an empty roster and
    /// transcript, and the single outbound `register` envelope announcing
    /// the identity — the only outbound frame not triggered by user action.
    pub fn create(username: &str) -> (r: (Chat, String))
        ensures
            r.0@.users == Seq::<UserProfileV>::empty(),
            r.0@.messages == Seq::<ChatMessageV>::empty(),
            r.1@ == enc_env(EnvelopeV::Register(username@)),
    {
        let chat = Chat { users: Vec::new(), messages: Vec::new() };
        proof {
            assert(chat@.users =~= Seq::<UserProfileV>::empty());
            assert(chat@.messages =~= Seq::<ChatMessageV>::empty());
        }
        let frame = codec::encode(&Envelope::Register(String::from_str(username)));
        (chat, frame)
    }

    /// Applies one inbound frame; returns whether the widget must re-render.
    pub fn handle_frame(&mut self, frame: &str) -> (render: bool)
        ensures
            final(self)@ == step(old(self)@, frame@).0,
            render == step(old(self)@, frame@).1,
    {
        match codec::decode(frame) {
            Ok(Envelope::Users(names)) => {
                let mut users: Vec<UserProfile> = Vec::new();
                let mut i: usize = 0;
                while i < names.len()
                    invariant
                        i <= names@.len(),
                        users@.len() == i,
                        forall|k: int| 0 <= k < i ==> users@[k]@ == profile_of(names@[k]@),
                    decreases names@.len() - i,
                {
                    let name = names[i].clone();
                    let avatar = avatar_url(names[i].as_str());
                    users.push(UserProfile { name, avatar });
                    i = i + 1;
                }
                proof {
                    assert(users@.map_values(|u: UserProfile| u@)
                        =~= profiles_of(names@.map_values(|s: String| s@)));
                }
                self.users = users;
                true
            }
            Ok(Envelope::Message(payload)) => {
                match codec::decode_chat_message(payload.as_str()) {
                    Ok(m) => {
                        let ghost mv = m@;
                        self.messages.push(m);
                        proof {
                            assert(self@.messages =~= old(self)@.messages.push(mv));
                        }
                        true
                    }
                    Err(_) => false,
                }
            }
            Ok(Envelope::Register(_)) => false,
            Err(_) => false,
        }
    }

    /// Builds the outbound frame for a local submit intent: a non-empty
    /// input becomes an encoded `message` envelope, an empty input produces
    /// no outbound send.  The transcript is untouched either way (`&self`):
    /// the message is only displayed once the server broadcasts it back.
    pub fn submit(&self, input: &str) -> (out: Option<String>)
        ensures
            input@.len() == 0 ==> out is None,
            input@.len() > 0 ==> (out matches Some(f) && f@ == enc_env(EnvelopeV::Message(input@))),
    {
        if input.is_empty() {
            None
        } else {
            Some(codec::encode(&Envelope::Message(String::from_str(input))))
        }
    }

    /// Handles one widget event: an inbound frame is dispatched through
    /// [`Chat::handle_frame`]; a submit intent leaves the state unchanged
    /// and yields the outbound frame, if any.  Returns the re-render flag
    /// and the outbound frame.
    pub fn update(&mut self, msg: Msg) -> (r: (bool, Option<String>))
        ensures
            msg matches Msg::HandleMsg(f) ==> {
                &&& final(self)@ == step(old(self)@, f@).0
                &&& r.0 == step(old(self)@, f@).1
                &&& r.1 is None
            },
            msg matches Msg::SubmitMessage(input) ==> {
                &&& final(self)@ == old(self)@
                &&& r.0 == false
                &&& (input@.len() == 0 ==> r.1 is None)
                &&& (input@.len() > 0 ==> (r.1 matches Some(f)
                    && f@ == enc_env(EnvelopeV::Message(input@))))
            },
    {
        match msg {
            Msg::HandleMsg(f) => {
                let render = self.handle_frame(f.as_str());
                (render, None)
            }
            Msg::SubmitMessage(input) => {
                let out = self.submit(input.as_str());
                (false, out)
            }
        }
    }
}

/// The avatar of the first roster entry with the given name, if any.
pub open spec fn lookup_avatar(users: Seq<UserProfileV>, name: Seq<char>) -> Option<Seq<char>>
    decreases users.len(),
{
    if users.len() == 0 {
        None
    } else if users[0].name == name {
        Some(users[0].avatar)
    } else {
        lookup_avatar(users.skip(1), name)
    }
}

proof fn lemma_lookup_skip(users: Seq<UserProfileV>, name: Seq<char>, i: int)
    requires
        0 <= i <= users.len(),
        forall|k: int| 0 <= k < i ==> users[k].name != name,
    ensures
        lookup_avatar(users, name) == lookup_avatar(users.skip(i), name),
    decreases i,
{
    if i > 0 {
        assert(users[0].name != name);
        lemma_lookup_skip(users.skip(1), name, i - 1);
        assert(users.skip(1).skip(i - 1) =~= users.skip(i));
    } else {
        assert(users.skip(0) =~= users);
    }
}

impl Chat {
    /// Looks up the avatar of a message's sender in the current roster.  A
    /// sender that is not in the roster yields `None`: the caller falls
    /// back gracefully instead of failing the rest of the transcript.
    pub fn sender_avatar(&self, name: &str) -> (r: Option<String>)
        ensures
            match r {
                Some(a) => lookup_avatar(self@.users, name@) == Some(a@),
                None => lookup_avatar(self@.users, name@) is None,
            },
    {
        let mut i: usize = 0;
        while i < self.users.len()
            invariant
                i <= self.users@.len(),
                forall|k: int| 0 <= k < i ==> self@.users[k].name != name@,
            decreases self.users@.len() - i,
        {
            if crate::strutil::str_eq(self.users[i].name.as_str(), name) {
                proof {
                    lemma_lookup_skip(self@.users, name@, i as int);
                    assert(self@.users.skip(i as int)[0] == self@.users[i as int]);
                }
                return Some(self.users[i].avatar.clone());
            }
            i = i + 1;
        }
        proof {
            lemma_lookup_skip(self@.users, name@, self.users@.len() as int);
            assert(self@.users.skip(self.users@.len() as int) =~= Seq::<UserProfileV>::empty());
        }
        None
    }
}

proof fn lemma_run_snoc(st: ChatV, frames: Seq<Seq<char>>, f: Seq<char>)
    ensures
        run(st, frames.push(f)) == step(run(st, frames), f).0,
    decreases frames.len(),
{
    if frames.len() == 0 {
        assert(frames.push(f)[0] == f);
        assert(frames.push(f).skip(1) =~= Seq::<Seq<char>>::empty());
        assert(run(st, frames.push(f)) == run(step(st, f).0, frames.push(f).skip(1)));
        assert(run(step(st, f).0, Seq::<Seq<char>>::empty()) == step(st, f).0);
        assert(run(st, frames) == st);
    } else {
        assert(frames.push(f)[0] == frames[0]);
        assert(frames.push(f).skip(1) =~= frames.skip(1).push(f));
        assert(run(st, frames.push(f)) == run(step(st, frames[0]).0, frames.push(f).skip(1)));
        assert(run(st, frames) == run(step(st, frames[0]).0, frames.skip(1)));
        lemma_run_snoc(step(st, frames[0]).0, frames.skip(1), f);
    }
}

/// Roster replacement law: whatever came before, after the `n`-th of a
/// sequence of inbound frames whose `n`-th frame is a `users` frame, the
/// roster is exactly the profiles derived from that frame's list — nothing
/// is merged from any earlier roster.
pub proof fn lemma_roster_replaced(st: ChatV, frames: Seq<Seq<char>>, n: int)
    requires
        1 <= n <= frames.len(),
    ensures
        dec_env(frames[n - 1]) matches Some(EnvelopeV::Users(l))
            ==> run(st, frames.take(n)).users == profiles_of(l),
{
    assert(frames.take(n) =~= frames.take(n - 1).push(frames[n - 1]));
    lemma_run_snoc(st, frames.take(n - 1), frames[n - 1]);
}

/// The message a frame carries, if it is a well-formed `message` frame.
pub open spec fn frame_message(frame: Seq<char>) -> Option<ChatMessageV> {
    match dec_env(frame) {
        Some(EnvelopeV::Message(t)) => dec_chat(t),
        _ => None,
    }
}

/// Transcript law: a sequence of `n` well-formed `message` frames appends
/// exactly `n` entries to the transcript, in arrival order, with no
/// deduplication, and leaves the earlier transcript in place.
pub proof fn lemma_transcript_appends(st: ChatV, frames: Seq<Seq<char>>)
    requires
        forall|k: int| 0 <= k < frames.len() ==> frame_message(#[trigger] frames[k]) is Some,
    ensures
        run(st, frames).messages.len() == st.messages.len() + frames.len(),
        forall|k: int| 0 <= k < st.messages.len()
            ==> run(st, frames).messages[k] == st.messages[k],
        forall|k: int| 0 <= k < frames.len()
            ==> run(st, frames).messages[st.messages.len() + k]
                == frame_message(#[trigger] frames[k]).unwrap(),
    decreases frames.len(),
{
    if frames.len() > 0 {
        let st1 = step(st, frames[0]).0;
        assert(frame_message(frames[0]) is Some);
        assert(st1.messages == st.messages.push(frame_message(frames[0]).unwrap()));
        assert forall|k: int| 0 <= k < frames.skip(1).len()
            implies frame_message(#[trigger] frames.skip(1)[k]) is Some by {
            assert(frames.skip(1)[k] == frames[k + 1]);
        }
        lemma_transcript_appends(st1, frames.skip(1));
        assert(run(st, frames) == run(st1, frames.skip(1)));
        assert forall|k: int| 0 <= k < st.messages.len()
            implies run(st, frames).messages[k] == st.messages[k] by {
            assert(run(st1, frames.skip(1)).messages[k] == st1.messages[k]);
            assert(st1.messages[k] == st.messages[k]);
        }
        assert forall|k: int| 0 <= k < frames.len()
            implies run(st, frames).messages[st.messages.len() + k]
                == frame_message(#[trigger] frames[k]).unwrap() by {
            if k == 0 {
                assert(run(st1, frames.skip(1)).messages[st1.messages.len() - 1]
                    == st1.messages[st1.messages.len() - 1]);
            } else {
                assert(frames.skip(1)[k - 1] == frames[k]);
                assert(run(st1, frames.skip(1)).messages[st1.messages.len() + (k - 1)]
                    == frame_message(frames.skip(1)[k - 1]).unwrap());
            }
        }
    }
}

} // verus!
