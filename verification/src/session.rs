//! The session state: the roster and the transcript, and the reducer that
//! applies one inbound envelope to them.
//!
//! The reducer is a pure transition (`step`): a `Users` envelope replaces the
//! whole roster with the avatar-annotated projection of its list; a `Message`
//! envelope whose payload decodes appends to the transcript; every other
//! frame, including an unrecognised tag, changes nothing. A sender missing
//! from the roster never fails the session: `resolve_sender` falls back to
//! the profile derived from the sender's name.

use vstd::prelude::*;
use vstd::string::StrSliceExecFns;
use vstd::string::StringExecFns;
use crate::protocol::{ChatMessage, ChatMessageView, Envelope, EnvelopeView, MsgTypes, MsgTypeView};
use crate::codec::{spec_decode_chat, decode_chat};

verus! {

// ---------------------------------------------------------------------------
// Percent-encoding of a user name inside the avatar URL.
// ---------------------------------------------------------------------------

/// Characters that stand for themselves in a URL path segment.
pub open spec fn is_unreserved(c: char) -> bool {
    let u = c as u32;
    (48 <= u && u <= 57) || (65 <= u && u <= 90) || (97 <= u && u <= 122) || u == 45 || u == 46
        || u == 95 || u == 126
}

pub open spec fn hex_char(d: u32) -> char {
    if d == 0 {
        '0'
    } else if d == 1 {
        '1'
    } else if d == 2 {
        '2'
    } else if d == 3 {
        '3'
    } else if d == 4 {
        '4'
    } else if d == 5 {
        '5'
    } else if d == 6 {
        '6'
    } else if d == 7 {
        '7'
    } else if d == 8 {
        '8'
    } else if d == 9 {
        '9'
    } else if d == 10 {
        'A'
    } else if d == 11 {
        'B'
    } else if d == 12 {
        'C'
    } else if d == 13 {
        'D'
    } else if d == 14 {
        'E'
    } else {
        'F'
    }
}

/// The UTF-8 bytes of one character.
pub open spec fn utf8_bytes(c: char) -> Seq<u8> {
    let u = c as u32;
    if u < 0x80 {
        seq![u as u8]
    } else if u < 0x800 {
        seq![(0xC0 + u / 64) as u8, (0x80 + u % 64) as u8]
    } else if u < 0x10000 {
        seq![(0xE0 + u / 4096) as u8, (0x80 + (u / 64) % 64) as u8, (0x80 + u % 64) as u8]
    } else {
        seq![
            (0xF0 + u / 262144) as u8,
            (0x80 + (u / 4096) % 64) as u8,
            (0x80 + (u / 64) % 64) as u8,
            (0x80 + u % 64) as u8,
        ]
    }
}

pub open spec fn pct_byte(b: u8) -> Seq<char> {
    seq!['%', hex_char((b as u32) / 16), hex_char((b as u32) % 16)]
}

pub open spec fn pct_bytes(bs: Seq<u8>) -> Seq<char>
    decreases bs.len(),
{
    if bs.len() == 0 {
        seq![]
    } else {
        pct_byte(bs[0]) + pct_bytes(bs.skip(1))
    }
}

/// The URL form of one character: unreserved characters stand for
/// themselves, every other character becomes the `%XX` form of each of its
/// UTF-8 bytes.
pub open spec fn pct_char(c: char) -> Seq<char> {
    if is_unreserved(c) {
        seq![c]
    } else {
        pct_bytes(utf8_bytes(c))
    }
}

pub open spec fn pct_encode(s: Seq<char>) -> Seq<char>
    decreases s.len(),
{
    if s.len() == 0 {
        seq![]
    } else {
        pct_char(s[0]) + pct_encode(s.skip(1))
    }
}

proof fn lemma_pct_append(a: Seq<char>, b: Seq<char>)
    ensures
        pct_encode(a + b) == pct_encode(a) + pct_encode(b),
    decreases a.len(),
{
    if a.len() == 0 {
        assert(a + b =~= b);
        assert(pct_encode(a) + pct_encode(b) =~= pct_encode(b));
    } else {
        assert((a + b).skip(1) =~= a.skip(1) + b);
        lemma_pct_append(a.skip(1), b);
        assert(pct_char(a[0]) + (pct_encode(a.skip(1)) + pct_encode(b)) =~= (pct_char(a[0])
            + pct_encode(a.skip(1))) + pct_encode(b));
        assert((a + b)[0] == a[0]);
    }
}

fn hex_char_exec(d: u32) -> (c: char)
    requires
        d < 16,
    ensures
        c == hex_char(d),
{
    if d == 0 {
        '0'
    } else if d == 1 {
        '1'
    } else if d == 2 {
        '2'
    } else if d == 3 {
        '3'
    } else if d == 4 {
        '4'
    } else if d == 5 {
        '5'
    } else if d == 6 {
        '6'
    } else if d == 7 {
        '7'
    } else if d == 8 {
        '8'
    } else if d == 9 {
        '9'
    } else if d == 10 {
        'A'
    } else if d == 11 {
        'B'
    } else if d == 12 {
        'C'
    } else if d == 13 {
        'D'
    } else if d == 14 {
        'E'
    } else {
        'F'
    }
}

proof fn lemma_pct_bytes_unfold(bs: Seq<u8>)
    requires
        bs.len() > 0,
    ensures
        pct_bytes(bs) == pct_byte(bs[0]) + pct_bytes(bs.skip(1)),
{
}

/// Appends the `%XX` form of one byte to `out`.
fn push_pct_byte(out: &mut String, b: u8)
    ensures
        final(out)@ == old(out)@ + pct_byte(b),
{
    out.push('%');
    out.push(hex_char_exec((b as u32) / 16));
    out.push(hex_char_exec((b as u32) % 16));
    proof {
        assert(out@ =~= old(out)@ + pct_byte(b));
    }
}

/// Appends the percent-encoded form of `s` to `out`.
fn pct_into(out: &mut String, s: &str)
    ensures
        final(out)@ == old(out)@ + pct_encode(s@),
{
    let n = s.unicode_len();
    let mut k: usize = 0;
    proof {
        assert(s@.take(0) =~= Seq::<char>::empty());
        assert(pct_encode(s@.take(0)) =~= Seq::<char>::empty());
        assert(out@ =~= old(out)@ + pct_encode(s@.take(0)));
    }
    while k < n
        invariant
            k <= n,
            n == s@.len(),
            out@ == old(out)@ + pct_encode(s@.take(k as int)),
        decreases n - k,
    {
        let c = s.get_char(k);
        let u = c as u32;
        let ghost bs = utf8_bytes(c);
        if (48 <= u && u <= 57) || (65 <= u && u <= 90) || (97 <= u && u <= 122) || u == 45
            || u == 46 || u == 95 || u == 126 {
            out.push(c);
        } else if u < 0x80 {
            push_pct_byte(out, u as u8);
            proof {
                assert(bs =~= seq![u as u8]);
                lemma_pct_bytes_unfold(bs);
                assert(bs.skip(1) =~= Seq::<u8>::empty());
                assert(pct_bytes(bs) =~= pct_byte(u as u8));
            }
        } else if u < 0x800 {
            let b0: u8 = (0xC0 + u / 64) as u8;
            let b1: u8 = (0x80 + u % 64) as u8;
            push_pct_byte(out, b0);
            push_pct_byte(out, b1);
            proof {
                assert(bs =~= seq![b0, b1]);
                lemma_pct_bytes_unfold(bs);
                assert(bs.skip(1) =~= seq![b1]);
                lemma_pct_bytes_unfold(seq![b1]);
                assert(seq![b1].skip(1) =~= Seq::<u8>::empty());
                assert(pct_bytes(bs) =~= pct_byte(b0) + pct_byte(b1));
            }
        } else if u < 0x10000 {
            let b0: u8 = (0xE0 + u / 4096) as u8;
            let b1: u8 = (0x80 + (u / 64) % 64) as u8;
            let b2: u8 = (0x80 + u % 64) as u8;
            push_pct_byte(out, b0);
            push_pct_byte(out, b1);
            push_pct_byte(out, b2);
            proof {
                assert(bs =~= seq![b0, b1, b2]);
                lemma_pct_bytes_unfold(bs);
                assert(bs.skip(1) =~= seq![b1, b2]);
                lemma_pct_bytes_unfold(seq![b1, b2]);
                assert(seq![b1, b2].skip(1) =~= seq![b2]);
                lemma_pct_bytes_unfold(seq![b2]);
                assert(seq![b2].skip(1) =~= Seq::<u8>::empty());
                assert(pct_bytes(bs) =~= pct_byte(b0) + (pct_byte(b1) + pct_byte(b2)));
                assert(pct_byte(b0) + (pct_byte(b1) + pct_byte(b2)) =~= pct_byte(b0) + pct_byte(b1)
                    + pct_byte(b2));
            }
        } else {
            let b0: u8 = (0xF0 + u / 262144) as u8;
            let b1: u8 = (0x80 + (u / 4096) % 64) as u8;
            let b2: u8 = (0x80 + (u / 64) % 64) as u8;
            let b3: u8 = (0x80 + u % 64) as u8;
            push_pct_byte(out, b0);
            push_pct_byte(out, b1);
            push_pct_byte(out, b2);
            push_pct_byte(out, b3);
            proof {
                assert(bs =~= seq![b0, b1, b2, b3]);
                lemma_pct_bytes_unfold(bs);
                assert(bs.skip(1) =~= seq![b1, b2, b3]);
                lemma_pct_bytes_unfold(seq![b1, b2, b3]);
                assert(seq![b1, b2, b3].skip(1) =~= seq![b2, b3]);
                lemma_pct_bytes_unfold(seq![b2, b3]);
                assert(seq![b2, b3].skip(1) =~= seq![b3]);
                lemma_pct_bytes_unfold(seq![b3]);
                assert(seq![b3].skip(1) =~= Seq::<u8>::empty());
                assert(pct_bytes(bs) =~= pct_byte(b0) + (pct_byte(b1) + (pct_byte(b2) + pct_byte(
                    b3,
                ))));
                assert(pct_byte(b0) + (pct_byte(b1) + (pct_byte(b2) + pct_byte(b3))) =~= pct_byte(
                    b0,
                ) + pct_byte(b1) + pct_byte(b2) + pct_byte(b3));
            }
        }
        proof {
            lemma_pct_append(s@.take(k as int), seq![c]);
            assert(s@.take(k as int + 1) =~= s@.take(k as int) + seq![c]);
            assert(seq![c].skip(1) =~= Seq::<char>::empty());
            assert(pct_encode(seq![c].skip(1)) =~= Seq::<char>::empty());
            assert(pct_encode(seq![c]) =~= pct_char(c));
            assert(out@ =~= old(out)@ + pct_encode(s@.take(k as int + 1)));
        }
        k = k + 1;
    }
    proof {
        assert(s@.take(n as int) =~= s@);
    }
}

// ---------------------------------------------------------------------------
// Profiles and the avatar URL.
// ---------------------------------------------------------------------------

/// One roster entry: a user name and the avatar URL derived from it.
#[derive(Clone, Debug, PartialEq)]
pub struct UserProfile {
    pub name: String,
    pub avatar: String,
}

#[verifier::ext_equal]
pub ghost struct UserProfileView {
    pub name: Seq<char>,
    pub avatar: Seq<char>,
}

impl View for UserProfile {
    type V = UserProfileView;

    open spec fn view(&self) -> UserProfileView {
        UserProfileView { name: self.name@, avatar: self.avatar@ }
    }
}

impl DeepView for UserProfile {
    type V = UserProfileView;

    open spec fn deep_view(&self) -> UserProfileView {
        self@
    }
}

pub open spec fn avatar_prefix() -> Seq<char> {
    "https://avatars.dicebear.com/api/adventurer-neutral/"@
}

pub open spec fn avatar_suffix() -> Seq<char> {
    ".svg"@
}

/// The avatar URL a name derives to; the same name always gives the same URL.
pub open spec fn avatar_url(name: Seq<char>) -> Seq<char> {
    avatar_prefix() + pct_encode(name) + avatar_suffix()
}

/// Derives the avatar URL for a user name.
pub fn derive_avatar(name: &str) -> (r: String)
    ensures
        r@ == avatar_url(name@),
{
    let mut out = "https://avatars.dicebear.com/api/adventurer-neutral/".to_owned();
    pct_into(&mut out, name);
    out.append(".svg");
    proof {
        assert(out@ =~= avatar_url(name@));
    }
    out
}

/// The profile a name projects to in the roster.
pub open spec fn profile_of(name: Seq<char>) -> UserProfileView {
    UserProfileView { name: name, avatar: avatar_url(name) }
}

pub fn make_profile(name: &str) -> (p: UserProfile)
    ensures
        p@ == profile_of(name@),
{
    let avatar = derive_avatar(name);
    UserProfile { name: name.to_owned(), avatar }
}

/// The avatar-annotated projection of a name list, in the given order.
pub open spec fn roster_of(names: Seq<Seq<char>>) -> Seq<UserProfileView> {
    names.map_values(|n: Seq<char>| profile_of(n))
}

// ---------------------------------------------------------------------------
// The session state and its reducer.
// ---------------------------------------------------------------------------

/// The state one chat session owns: the roster as last received, and the
/// transcript in arrival order.
pub struct SessionState {
    pub roster: Vec<UserProfile>,
    pub transcript: Vec<ChatMessage>,
}

#[verifier::ext_equal]
pub ghost struct SessionStateView {
    pub roster: Seq<UserProfileView>,
    pub transcript: Seq<ChatMessageView>,
}

impl View for SessionState {
    type V = SessionStateView;

    open spec fn view(&self) -> SessionStateView {
        SessionStateView {
            roster: self.roster.deep_view(),
            transcript: self.transcript.deep_view(),
        }
    }
}

pub open spec fn opt_names(a: Option<Seq<Seq<char>>>) -> Seq<Seq<char>> {
    match a {
        Some(x) => x,
        None => Seq::empty(),
    }
}

/// The chat message a `Message` envelope contributes, if its payload decodes.
pub open spec fn msg_effect(e: EnvelopeView) -> Option<ChatMessageView> {
    match e.message_type {
        MsgTypeView::Message => match e.data {
            Some(d) => spec_decode_chat(d),
            None => None,
        },
        _ => None,
    }
}

/// The session transition: the state one inbound envelope leads to, and
/// whether the UI must re-render.
pub open spec fn step(st: SessionStateView, e: EnvelopeView) -> (SessionStateView, bool) {
    match e.message_type {
        MsgTypeView::Users => (
            SessionStateView {
                roster: roster_of(opt_names(e.data_array)),
                transcript: st.transcript,
            },
            true,
        ),
        MsgTypeView::Message => match msg_effect(e) {
            Some(m) => (
                SessionStateView { roster: st.roster, transcript: st.transcript.push(m) },
                true,
            ),
            None => (st, false),
        },
        _ => (st, false),
    }
}

/// Starts a session for `username`: the registration envelope to send, and
/// the empty state the session becomes active with once that envelope has
/// gone out (optimistically: the session does not wait for the server).
pub fn start_session(username: &str) -> (r: (Envelope, SessionState))
    ensures
        r.0@.message_type == MsgTypeView::Register,
        r.0@.data == Some(username@),
        r.0@.data_array is None,
        r.1@.roster.len() == 0,
        r.1@.transcript.len() == 0,
{
    (crate::protocol::compose_registration(username), SessionState::new())
}

impl SessionState {
    /// The empty state a session starts from.
    pub fn new() -> (st: SessionState)
        ensures
            st@.roster.len() == 0,
            st@.transcript.len() == 0,
    {
        SessionState { roster: Vec::new(), transcript: Vec::new() }
    }

    /// Applies one inbound envelope; returns whether the UI must re-render.
    /// A frame that carries no decodable payload is dropped, the state left
    /// unchanged.
    pub fn apply(&mut self, env: &Envelope) -> (render: bool)
        ensures
            final(self)@ == step(old(self)@, env@).0,
            render == step(old(self)@, env@).1,
    {
        match &env.message_type {
            MsgTypes::Users => {
                let mut roster: Vec<UserProfile> = Vec::new();
                proof {
                    assert(roster.deep_view() =~= Seq::<UserProfileView>::empty());
                }
                match &env.data_array {
                    Some(names) => {
                        let ghost nv = names.deep_view();
                        let mut idx: usize = 0;
                        proof {
                            assert(nv.take(0) =~= Seq::<Seq<char>>::empty());
                            assert(roster.deep_view() =~= roster_of(nv.take(0)));
                        }
                        while idx < names.len()
                            invariant
                                idx <= names.len(),
                                nv == names.deep_view(),
                                roster.deep_view() == roster_of(nv.take(idx as int)),
                            decreases names.len() - idx,
                        {
                            let ghost r0 = roster.deep_view();
                            let p = make_profile(names[idx].as_str());
                            roster.push(p);
                            proof {
                                assert(roster.deep_view() =~= r0.push(p@));
                                assert(nv.take(idx as int + 1) =~= nv.take(idx as int).push(
                                    nv[idx as int],
                                ));
                                assert(roster_of(nv.take(idx as int + 1)) =~= roster_of(
                                    nv.take(idx as int),
                                ).push(profile_of(nv[idx as int])));
                            }
                            idx = idx + 1;
                        }
                        proof {
                            assert(nv.take(names.len() as int) =~= nv);
                        }
                        self.roster = roster;
                    },
                    None => {
                        proof {
                            assert(roster_of(opt_names(env@.data_array)) =~= Seq::<
                                UserProfileView,
                            >::empty());
                        }
                        self.roster = roster;
                    },
                }
                proof {
                    assert(self@ =~= step(old(self)@, env@).0);
                }
                true
            },
            MsgTypes::Message => {
                match &env.data {
                    Some(d) => {
                        match decode_chat(d.as_str()) {
                            Some(m) => {
                                let ghost t0 = self.transcript.deep_view();
                                let ghost mv = m@;
                                self.transcript.push(m);
                                proof {
                                    assert(self.transcript.deep_view() =~= t0.push(mv));
                                    assert(self@ =~= step(old(self)@, env@).0);
                                }
                                true
                            },
                            None => false,
                        }
                    },
                    None => false,
                }
            },
            _ => false,
        }
    }
}

// ---------------------------------------------------------------------------
// Sender resolution with a fallback.
// ---------------------------------------------------------------------------

/// The profile the sender at position `i` on resolves to: the first roster
/// entry with that name, or the fallback derived from the name.
pub open spec fn resolve_at(roster: Seq<UserProfileView>, from: Seq<char>, i: int) -> UserProfileView
    decreases roster.len() - i,
{
    if i < 0 || i >= roster.len() {
        profile_of(from)
    } else if roster[i].name == from {
        roster[i]
    } else {
        resolve_at(roster, from, i + 1)
    }
}

pub open spec fn resolve_profile(roster: Seq<UserProfileView>, from: Seq<char>) -> UserProfileView {
    resolve_at(roster, from, 0)
}

/// The profile a message from `from` is rendered with. A sender missing from
/// the roster gets the fallback profile derived from the name; resolution
/// never fails.
pub fn resolve_sender(roster: &Vec<UserProfile>, from: &str) -> (p: UserProfile)
    ensures
        p@ == resolve_profile(roster.deep_view(), from@),
{
    let key = from.to_owned();
    let mut idx: usize = 0;
    while idx < roster.len()
        invariant
            idx <= roster.len(),
            key@ == from@,
            resolve_at(roster.deep_view(), from@, 0) == resolve_at(
                roster.deep_view(),
                from@,
                idx as int,
            ),
        decreases roster.len() - idx,
    {
        if roster[idx].name == key {
            return UserProfile {
                name: roster[idx].name.clone(),
                avatar: roster[idx].avatar.clone(),
            };
        }
        idx = idx + 1;
    }
    make_profile(from)
}

// ---------------------------------------------------------------------------
// Laws of the reducer.
// ---------------------------------------------------------------------------

/// Law: a `Users` envelope replaces the roster with the avatar-annotated
/// projection of its list, in order, whatever the previous state held, and
/// leaves the transcript alone; applying the same envelope again changes
/// nothing more.
pub proof fn lemma_users_replaces_roster(st: SessionStateView, e: EnvelopeView)
    requires
        e.message_type == MsgTypeView::Users,
    ensures
        step(st, e).0.roster == roster_of(opt_names(e.data_array)),
        step(st, e).0.transcript == st.transcript,
        step(step(st, e).0, e).0 == step(st, e).0,
{
    assert(step(step(st, e).0, e).0 =~= step(st, e).0);
}

/// The states a run of envelopes leads through, folded to the last.
pub open spec fn run(st: SessionStateView, es: Seq<EnvelopeView>) -> SessionStateView
    decreases es.len(),
{
    if es.len() == 0 {
        st
    } else {
        run(step(st, es[0]).0, es.skip(1))
    }
}

/// The payloads of a run that decode, in arrival order.
pub open spec fn decoded_msgs(es: Seq<EnvelopeView>) -> Seq<ChatMessageView>
    decreases es.len(),
{
    if es.len() == 0 {
        seq![]
    } else {
        (match msg_effect(es[0]) {
            Some(m) => seq![m],
            None => Seq::empty(),
        }) + decoded_msgs(es.skip(1))
    }
}

/// Law: a run of `Message` envelopes appends to the transcript exactly the
/// payloads that decode, in arrival order — no reordering, no other change —
/// so the transcript grows by one entry per envelope that decodes.
pub proof fn lemma_transcript_order(st: SessionStateView, es: Seq<EnvelopeView>)
    requires
        forall|i: int| 0 <= i < es.len() ==> es[i].message_type == MsgTypeView::Message,
    ensures
        run(st, es).transcript == st.transcript + decoded_msgs(es),
        run(st, es).roster == st.roster,
    decreases es.len(),
{
    if es.len() == 0 {
        assert(st.transcript + decoded_msgs(es) =~= st.transcript);
    } else {
        let st1 = step(st, es[0]).0;
        assert(forall|i: int|
            0 <= i < es.skip(1).len() ==> es.skip(1)[i].message_type == MsgTypeView::Message);
        lemma_transcript_order(st1, es.skip(1));
        match msg_effect(es[0]) {
            Some(m) => {
                assert(st.transcript.push(m) + decoded_msgs(es.skip(1)) =~= st.transcript + (
                seq![m] + decoded_msgs(es.skip(1))));
            },
            None => {
                assert(st.transcript + decoded_msgs(es.skip(1)) =~= st.transcript + (Seq::empty()
                    + decoded_msgs(es.skip(1))));
            },
        }
    }
}

/// Law: an envelope with an unrecognised tag leaves the state unchanged and
/// asks for no re-render.
pub proof fn lemma_unknown_ignored(st: SessionStateView, e: EnvelopeView)
    requires
        e.message_type matches MsgTypeView::Unknown(_),
    ensures
        step(st, e).0 == st,
        step(st, e).1 == false,
{
}

proof fn lemma_resolve_no_match(roster: Seq<UserProfileView>, from: Seq<char>, i: int)
    requires
        forall|k: int| 0 <= k < roster.len() ==> roster[k].name != from,
    ensures
        resolve_at(roster, from, i) == profile_of(from),
    decreases roster.len() - i,
{
    if 0 <= i && i < roster.len() {
        lemma_resolve_no_match(roster, from, i + 1);
    }
}

/// Law: a `Message` whose payload decodes appends to the transcript whatever
/// the roster holds — membership of the sender plays no part — and a sender
/// missing from the roster resolves to the fallback profile rather than
/// failing the session.
pub proof fn lemma_message_appends_any_sender(
    st: SessionStateView,
    e: EnvelopeView,
    m: ChatMessageView,
)
    requires
        e.message_type == MsgTypeView::Message,
        e.data matches Some(d) && spec_decode_chat(d) == Some(m),
    ensures
        step(st, e).0.transcript == st.transcript.push(m),
        step(st, e).0.roster == st.roster,
        step(st, e).1,
        (forall|i: int| 0 <= i < st.roster.len() ==> st.roster[i].name != m.from)
            ==> resolve_profile(st.roster, m.from) == profile_of(m.from),
{
    if forall|i: int| 0 <= i < st.roster.len() ==> st.roster[i].name != m.from {
        lemma_resolve_no_match(st.roster, m.from, 0);
    }
}

} // verus!
