use std::rc::Rc;
use vstd::prelude::*;
use crate::declare::res::Type;
use crate::span::{messages_view, Message, MessageV, Span};
use crate::text::{append_str, text};

verus! {

/// Why a possible type of a value was given up.
#[derive(Debug)]
pub enum DeclareError {
    UniqueDeleted { reason: Box<DeclareError> },
    NonBranchSelected { expect: String },
    ConflictSelected { conflict_with: Type, this: Type },
    NeverUsed { in_group: Span, reason: Option<Box<DeclareError>> },
    Declared { declare_as: Type },
    Unexpect { expect: String },
    ShouldAlign { left: Span, right: Span },
    WithLocation { location: Span, error: Box<DeclareError> },
    WithPrevious { previous: Type, error: Box<DeclareError> },
    Shared { err: Rc<DeclareError> },
    Filtered,
    Empty,
}

impl DeclareError {
    pub fn with_location(self, location: Span) -> (e: DeclareError)
        ensures
            e == (DeclareError::WithLocation { location, error: Box::new(self) }),
    {
        DeclareError::WithLocation { location, error: Box::new(self) }
    }

    pub fn into_shared(self) -> (e: DeclareError)
        ensures
            e == (DeclareError::Shared { err: Rc::new(self) }),
    {
        DeclareError::Shared { err: Rc::new(self) }
    }

    /// Another handle on a shared error.
    pub fn shared(err: &Rc<DeclareError>) -> (e: DeclareError)
        ensures
            e == (DeclareError::Shared { err: *err }),
    {
        DeclareError::Shared { err: crate::declare::defs::share(err) }
    }

    pub fn with_previous(self, previous: Type) -> (e: DeclareError)
        ensures
            e == (DeclareError::WithPrevious { previous, error: Box::new(self) }),
    {
        DeclareError::WithPrevious { previous, error: Box::new(self) }
    }
}

/// The text of a possible type: the signature of an overload, or the type itself.
pub open spec fn type_words(t: Type) -> Seq<char> {
    match t {
        Type::Overload(o) => crate::declare::filter::sign_text(*o),
        Type::Directly(_) => crate::types::type_text(t.spec_type()),
    }
}

/// Messages with the first one, where it is plain text, pointed at `location`.
pub open spec fn locate(ms: Seq<MessageV>, location: Span) -> Seq<MessageV> {
    if ms.len() == 0 {
        ms
    } else {
        match ms[0] {
            MessageV::Text(t) => ms.update(0, MessageV::Rich(t, location)),
            MessageV::Rich(_, _) => ms,
        }
    }
}

/// The messages that explain an error, innermost reason last: each kind of error has its
/// sentence; a location points the first message of what it wraps at a place; a previous
/// guess adds a note after what it wraps.
pub open spec fn explain(e: DeclareError) -> Seq<MessageV>
    decreases e,
{
    match e {
        DeclareError::UniqueDeleted { reason } =>
            seq![MessageV::Text("this has been declared, but filtered latter"@)] + explain(*reason),
        DeclareError::NonBranchSelected { expect } =>
            seq![MessageV::Text("this should be `"@ + expect@ + "`"@)],
        DeclareError::ConflictSelected { conflict_with, this } =>
            seq![MessageV::Text("this is required to been declared as "@ + type_words(this) + " and "@
                + type_words(conflict_with) + " together, but its impossiable"@)],
        DeclareError::NeverUsed { in_group, reason } =>
            seq![MessageV::Rich("the branch is never used in group"@, in_group)] + match reason {
                Some(r) => explain(*r),
                None => Seq::empty(),
            },
        DeclareError::ShouldAlign { left, right } => seq![
            MessageV::Text("those two has been declared to have same type"@),
            MessageV::Rich(Seq::empty(), left),
            MessageV::Rich(Seq::empty(), right),
        ],
        DeclareError::Declared { declare_as } =>
            seq![MessageV::Text("this has been declared as "@ + type_words(declare_as))],
        DeclareError::Unexpect { expect } =>
            seq![MessageV::Text("expect this to be declared as `"@ + expect@ + "`"@)],
        DeclareError::Filtered => seq![MessageV::Text("this has been filtered"@)],
        DeclareError::Shared { err } => explain(*err),
        DeclareError::WithLocation { location, error } => locate(explain(*error), location),
        DeclareError::WithPrevious { previous, error } =>
            explain(*error) + seq![MessageV::Text("note: this used to be guessed as "@ + type_words(previous))],
        DeclareError::Empty => Seq::empty(),
    }
}

/// A shared error is explained as the error it shares.
pub proof fn law_shared_explains_same(e: DeclareError)
    ensures
        explain(DeclareError::Shared { err: Rc::new(e) }) == explain(e),
{
}

/// An error with a previous guess is explained as the error, then a note of the guess.
pub proof fn law_previous_adds_note(e: DeclareError, previous: Type)
    ensures
        explain(DeclareError::WithPrevious { previous, error: Box::new(e) })
            == explain(e).push(MessageV::Text("note: this used to be guessed as "@ + type_words(previous))),
{
    assert(explain(DeclareError::WithPrevious { previous, error: Box::new(e) })
        =~= explain(e).push(MessageV::Text("note: this used to be guessed as "@ + type_words(previous))));
}

/// An error with a location is explained as the error, its first message pointed at the
/// location where it was plain text; the other messages stay as they were.
pub proof fn law_location_points_first(e: DeclareError, location: Span)
    ensures
        explain(DeclareError::WithLocation { location, error: Box::new(e) }).len() == explain(e).len(),
        explain(e).len() > 0 ==> explain(DeclareError::WithLocation { location, error: Box::new(e) })[0] == match explain(e)[0] {
            MessageV::Text(t) => MessageV::Rich(t, location),
            MessageV::Rich(t, at) => MessageV::Rich(t, at),
        },
        forall|k: int| 1 <= k < explain(e).len() ==>
            #[trigger] explain(DeclareError::WithLocation { location, error: Box::new(e) })[k] == explain(e)[k],
{
}

proof fn lemma_view_push(ms: Seq<Message>, m: Message)
    ensures
        messages_view(ms.push(m)) == messages_view(ms).push(m@),
{
    assert(messages_view(ms.push(m)) =~= messages_view(ms).push(m@));
}

impl DeclareError {
    /// The messages that explain the error, innermost reason last.
    pub fn generate(&self) -> (msgs: Vec<Message>)
        ensures
            messages_view(msgs@) == explain(*self),
    {
        let mut msgs = Vec::new();
        assert(messages_view(msgs@) =~= Seq::<MessageV>::empty());
        self.generate_inner(&mut msgs);
        assert(Seq::<MessageV>::empty() + explain(*self) =~= explain(*self));
        msgs
    }

    fn push_text(msgs: &mut Vec<Message>, m: String)
        ensures
            messages_view(final(msgs)@) == messages_view(old(msgs)@).push(MessageV::Text(m@)),
    {
        proof {
            lemma_view_push(msgs@, Message::Text(m));
        }
        msgs.push(Message::Text(m));
    }

    fn push_rich(msgs: &mut Vec<Message>, m: String, at: Span)
        ensures
            messages_view(final(msgs)@) == messages_view(old(msgs)@).push(MessageV::Rich(m@, at)),
    {
        proof {
            lemma_view_push(msgs@, Message::Rich(m, at));
        }
        msgs.push(Message::Rich(m, at));
    }

    fn generate_inner(&self, msgs: &mut Vec<Message>)
        ensures
            messages_view(final(msgs)@) == messages_view(old(msgs)@) + explain(*self),
        decreases self,
    {
        let ghost before = messages_view(msgs@);
        match self {
            DeclareError::UniqueDeleted { reason } => {
                Self::push_text(msgs, text("this has been declared, but filtered latter"));
                reason.generate_inner(msgs);
                assert(messages_view(msgs@) =~= before + explain(*self));
            },
            DeclareError::NonBranchSelected { expect } => {
                let mut m = text("this should be `");
                append_str(&mut m, expect.as_str());
                append_str(&mut m, "`");
                Self::push_text(msgs, m);
                assert(messages_view(msgs@) =~= before + explain(*self));
            },
            DeclareError::ConflictSelected { conflict_with, this } => {
                let mut m = text("this is required to been declared as ");
                crate::declare::res::append_type_of(&mut m, this);
                append_str(&mut m, " and ");
                crate::declare::res::append_type_of(&mut m, conflict_with);
                append_str(&mut m, " together, but its impossiable");
                proof {
                    assert(m@ =~= "this is required to been declared as "@ + type_words(*this) + " and "@
                        + type_words(*conflict_with) + " together, but its impossiable"@);
                }
                Self::push_text(msgs, m);
                assert(messages_view(msgs@) =~= before + explain(*self));
            },
            DeclareError::NeverUsed { in_group, reason } => {
                Self::push_rich(msgs, text("the branch is never used in group"), *in_group);
                match reason {
                    Some(r) => r.generate_inner(msgs),
                    None => {},
                }
                assert(messages_view(msgs@) =~= before + explain(*self));
            },
            DeclareError::ShouldAlign { left, right } => {
                Self::push_text(msgs, text("those two has been declared to have same type"));
                Self::push_rich(msgs, String::new(), *left);
                Self::push_rich(msgs, String::new(), *right);
                assert(messages_view(msgs@) =~= before + explain(*self));
            },
            DeclareError::Declared { declare_as } => {
                let mut m = text("this has been declared as ");
                crate::declare::res::append_type_of(&mut m, declare_as);
                proof {
                    assert(m@ =~= "this has been declared as "@ + type_words(*declare_as));
                }
                Self::push_text(msgs, m);
                assert(messages_view(msgs@) =~= before + explain(*self));
            },
            DeclareError::Unexpect { expect } => {
                let mut m = text("expect this to be declared as `");
                append_str(&mut m, expect.as_str());
                append_str(&mut m, "`");
                Self::push_text(msgs, m);
                assert(messages_view(msgs@) =~= before + explain(*self));
            },
            DeclareError::Filtered => {
                Self::push_text(msgs, text("this has been filtered"));
                assert(messages_view(msgs@) =~= before + explain(*self));
            },
            DeclareError::Shared { err } => {
                let inner: &DeclareError = &**err;
                inner.generate_inner(msgs);
            },
            DeclareError::WithLocation { location, error } => {
                let len = msgs.len();
                assert(before.len() == len);
                error.generate_inner(msgs);
                assert(messages_view(msgs@).len() == msgs@.len());
                let ghost inner = explain(**error);
                if len < msgs.len() {
                    let ghost whole = msgs@;
                    let first = msgs.remove(len);
                    let rich = match first {
                        Message::Text(t) => Message::Rich(t, *location),
                        Message::Rich(t, sp) => Message::Rich(t, sp),
                    };
                    msgs.insert(len, rich);
                    proof {
                        assert(msgs@ =~= whole.update(len as int, rich));
                        assert(messages_view(whole)[len as int] == inner[0]);
                        assert(messages_view(msgs@) =~= messages_view(whole).update(len as int, rich@));
                        assert(messages_view(msgs@) =~= before + locate(inner, *location));
                    }
                } else {
                    assert(inner.len() == 0);
                    assert(messages_view(msgs@) =~= before + locate(inner, *location));
                }
            },
            DeclareError::WithPrevious { previous, error } => {
                error.generate_inner(msgs);
                let mut m = text("note: this used to be guessed as ");
                crate::declare::res::append_type_of(&mut m, previous);
                proof {
                    assert(m@ =~= "note: this used to be guessed as "@ + type_words(*previous));
                }
                Self::push_text(msgs, m);
                assert(messages_view(msgs@) =~= before + explain(*self));
            },
            DeclareError::Empty => {
                assert(messages_view(msgs@) =~= before + explain(*self));
            },
        }
    }
}

} // verus!
