use std::rc::Rc;
use vstd::prelude::*;
use crate::declare::defs::{share, Overload};
use crate::types::{TypeDefine, TypeDefineV};

verus! {

/// A possible type of a value: the return type of one overload of a function,
/// or a type given directly.
#[derive(Debug, Clone)]
pub enum Type {
    Overload(Overload),
    Directly(Rc<TypeDefine>),
}

impl Type {
    /// The type that a value of this kind has.
    pub open spec fn spec_type(self) -> TypeDefineV {
        match self {
            Type::Overload(o) => o.sign.ty@,
            Type::Directly(t) => (*t)@,
        }
    }

    pub fn get_type(&self) -> (t: &TypeDefine)
        ensures
            t@ == self.spec_type(),
    {
        match self {
            Type::Overload(o) => &o.sign.ty,
            Type::Directly(t) => &**t,
        }
    }

    /// Another handle on the same type.
    pub fn share(&self) -> (t: Type)
        ensures
            t == *self,
    {
        match self {
            Type::Overload(o) => Type::Overload(share(o)),
            Type::Directly(t) => Type::Directly(share(t)),
        }
    }

    pub fn overload(&self) -> (o: &Overload)
        requires
            self is Overload,
        ensures
            Type::Overload(*o) == *self,
    {
        match self {
            Type::Overload(o) => o,
            Type::Directly(_) => {
                assert(false);
                unreached()
            },
        }
    }

    pub fn directly(&self) -> (t: &TypeDefine)
        requires
            self is Directly,
        ensures
            t@ == self.spec_type(),
    {
        match self {
            Type::Directly(t) => &**t,
            Type::Overload(_) => {
                assert(false);
                unreached()
            },
        }
    }

    /// A type given directly.
    pub fn from_type(t: TypeDefine) -> (ty: Type)
        ensures
            ty is Directly,
            ty.spec_type() == t@,
    {
        Type::Directly(Rc::new(t))
    }
}

/// Appends how a type is shown in messages: an overload as its signature, a type by its text.
pub fn append_type_of(out: &mut String, t: &Type)
    ensures
        t is Directly ==> final(out)@ == old(out)@ + crate::types::type_text(t.spec_type()),
        t matches Type::Overload(o) ==> final(out)@ == old(out)@ + crate::declare::filter::sign_text(**o),
{
    match t {
        Type::Overload(o) => crate::declare::filter::append_sign(out, &**o),
        Type::Directly(ty) => crate::text::append_type(out, &**ty),
    }
}

} // verus!
