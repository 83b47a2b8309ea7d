//! The wire message envelope and the outbound composer.
//!
//! An envelope carries a type tag plus at most one payload field: `data`
//! (a string) or `data_array` (an ordered list of strings). Tags the client
//! does not recognise are kept as `Unknown`, so the session can ignore the
//! frame instead of failing.

use vstd::prelude::*;

verus! {

/// The type tag of a wire envelope.
#[derive(Clone, Debug, PartialEq)]
pub enum MsgTypes {
    Register,
    Users,
    Message,
    /// A tag this client does not recognise; the tag text is kept.
    Unknown(String),
}

pub ghost enum MsgTypeView {
    Register,
    Users,
    Message,
    Unknown(Seq<char>),
}

impl View for MsgTypes {
    type V = MsgTypeView;

    open spec fn view(&self) -> MsgTypeView {
        match self {
            MsgTypes::Register => MsgTypeView::Register,
            MsgTypes::Users => MsgTypeView::Users,
            MsgTypes::Message => MsgTypeView::Message,
            MsgTypes::Unknown(t) => MsgTypeView::Unknown(t@),
        }
    }
}

impl DeepView for MsgTypes {
    type V = MsgTypeView;

    open spec fn deep_view(&self) -> MsgTypeView {
        self@
    }
}

/// The top-level wire message: a type tag plus optional payload fields.
#[derive(Clone, Debug, PartialEq)]
pub struct Envelope {
    pub message_type: MsgTypes,
    pub data: Option<String>,
    pub data_array: Option<Vec<String>>,
}

#[verifier::ext_equal]
pub ghost struct EnvelopeView {
    pub message_type: MsgTypeView,
    pub data: Option<Seq<char>>,
    pub data_array: Option<Seq<Seq<char>>>,
}

impl View for Envelope {
    type V = EnvelopeView;

    open spec fn view(&self) -> EnvelopeView {
        EnvelopeView {
            message_type: self.message_type@,
            data: self.data.deep_view(),
            data_array: self.data_array.deep_view(),
        }
    }
}

impl DeepView for Envelope {
    type V = EnvelopeView;

    open spec fn deep_view(&self) -> EnvelopeView {
        self@
    }
}

/// The tag text of the three recognised envelope kinds.
pub open spec fn str_register() -> Seq<char> {
    seq!['r', 'e', 'g', 'i', 's', 't', 'e', 'r']
}

pub open spec fn str_users() -> Seq<char> {
    seq!['u', 's', 'e', 'r', 's']
}

pub open spec fn str_message() -> Seq<char> {
    seq!['m', 'e', 's', 's', 'a', 'g', 'e']
}

pub open spec fn known_tag(t: Seq<char>) -> bool {
    t == str_register() || t == str_users() || t == str_message()
}

impl EnvelopeView {
    /// An `Unknown` tag never shadows a recognised one; decoding keeps this.
    pub open spec fn wf(self) -> bool {
        match self.message_type {
            MsgTypeView::Unknown(t) => !known_tag(t),
            _ => true,
        }
    }
}

/// One transcript entry: the nested payload carried in a `Message` envelope.
#[derive(Clone, Debug, PartialEq)]
pub struct ChatMessage {
    pub from: String,
    pub message: String,
}

#[verifier::ext_equal]
pub ghost struct ChatMessageView {
    pub from: Seq<char>,
    pub message: Seq<char>,
}

impl View for ChatMessage {
    type V = ChatMessageView;

    open spec fn view(&self) -> ChatMessageView {
        ChatMessageView { from: self.from@, message: self.message@ }
    }
}

impl DeepView for ChatMessage {
    type V = ChatMessageView;

    open spec fn deep_view(&self) -> ChatMessageView {
        self@
    }
}

/// Builds the registration envelope sent when a session starts.
pub fn compose_registration(username: &str) -> (e: Envelope)
    ensures
        e@.message_type == MsgTypeView::Register,
        e@.data == Some(username@),
        e@.data_array is None,
        e@.wf(),
{
    Envelope {
        message_type: MsgTypes::Register,
        data: Some(username.to_owned()),
        data_array: None,
    }
}

/// Builds the envelope that posts one chat message. Empty text is rejected
/// locally, so no empty chat frame is ever sent.
pub fn compose_chat_message(text: &str) -> (r: Option<Envelope>)
    ensures
        text@.len() == 0 ==> r is None,
        text@.len() > 0 ==> (r matches Some(e) && e@.message_type == MsgTypeView::Message
            && e@.data == Some(text@) && e@.data_array is None && e@.wf()),
{
    if text.is_empty() {
        None
    } else {
        Some(Envelope {
            message_type: MsgTypes::Message,
            data: Some(text.to_owned()),
            data_array: None,
        })
    }
}

} // verus!
