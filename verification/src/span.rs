use vstd::prelude::*;

verus! {

/// A range of positions in a buffer (of characters or of tokens): `start..end`.
#[derive(Debug, Clone, Copy, PartialEq, Eq, Structural)]
pub struct Span {
    pub start: usize,
    pub end: usize,
}

impl Span {
    pub fn new(start: usize, end: usize) -> (s: Span)
        ensures
            s.start == start,
            s.end == end,
    {
        Span { start, end }
    }

    /// The smallest span that covers both spans.
    pub open spec fn spec_merge(self, other: Span) -> Span {
        Span {
            start: if self.start <= other.start { self.start } else { other.start },
            end: if self.end >= other.end { self.end } else { other.end },
        }
    }

    pub fn merge(self, other: Span) -> (s: Span)
        ensures
            s == self.spec_merge(other),
    {
        Span {
            start: if self.start <= other.start { self.start } else { other.start },
            end: if self.end >= other.end { self.end } else { other.end },
        }
    }
}

/// One message of an error: plain text, or text about a place in the source.
#[derive(Debug)]
pub enum Message {
    Text(String),
    Rich(String, Span),
}

/// The abstract value of a [`Message`].
pub enum MessageV {
    Text(Seq<char>),
    Rich(Seq<char>, Span),
}

impl View for Message {
    type V = MessageV;

    open spec fn view(&self) -> MessageV {
        match self {
            Message::Text(t) => MessageV::Text(t@),
            Message::Rich(t, s) => MessageV::Rich(t@, *s),
        }
    }
}

/// The abstract values of messages, in order.
pub open spec fn messages_view(ms: Seq<Message>) -> Seq<MessageV> {
    ms.map_values(|m: Message| m@)
}

/// An error at a place in the source, with the messages that explain it.
#[derive(Debug)]
pub struct Error {
    pub span: Span,
    pub reason: String,
    pub messages: Vec<Message>,
}

impl Error {
    pub fn new(span: Span, reason: String) -> (e: Error)
        ensures
            e.span == span,
            e.reason@ == reason@,
            e.messages@.len() == 0,
    {
        Error { span, reason, messages: Vec::new() }
    }

    /// Adds a message at the end of the error.
    pub fn append(self, msg: Message) -> (e: Error)
        ensures
            e.span == self.span,
            e.reason@ == self.reason@,
            e.messages@ == self.messages@.push(msg),
    {
        let mut e = self;
        e.messages.push(msg);
        e
    }
}

} // verus!
