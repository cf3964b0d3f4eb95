use vstd::prelude::*;
use crate::declare::defs::{str_eq, Defs, FnSign, Parameter};
use crate::declare::graph::DeclareGraph;
use crate::declare::group::GroupIdx;
use crate::declare::res::Type;
use crate::mangle::{fn_unit, params_primitive, prefix_names, Mangle, Mangler};
use crate::span::{Error, Message, MessageV, Span};
use crate::text::{append_decimal, append_str, text};
use crate::types::{decimal, push_char};
use crate::declare::defs::Overload;

verus! {

/// A variable: the group that decides its type, and whether it may be assigned.
#[derive(Debug, Clone, Copy, PartialEq, Eq, Structural)]
pub struct VarDef {
    pub ty: GroupIdx,
    pub mutable: bool,
}

/// The variable a name refers to in a list of definitions: the last one of that name.
pub open spec fn lookup_in(entries: Seq<(String, VarDef)>, name: Seq<char>) -> Option<VarDef>
    decreases entries.len(),
{
    if entries.len() == 0 {
        None
    } else if entries.last().0@ == name {
        Some(entries.last().1)
    } else {
        lookup_in(entries.drop_last(), name)
    }
}

/// The variable a name refers to in nested scopes: the innermost scope that defines it.
pub open spec fn lookup_scopes(scopes: Seq<Vec<(String, VarDef)>>, name: Seq<char>) -> Option<VarDef>
    decreases scopes.len(),
{
    if scopes.len() == 0 {
        None
    } else {
        match lookup_in(scopes.last()@, name) {
            Some(d) => Some(d),
            None => lookup_scopes(scopes.drop_last(), name),
        }
    }
}

/// Every variable of the scopes refers to one of the first `n` groups.
pub open spec fn scopes_bounded(scopes: Seq<Vec<(String, VarDef)>>, n: nat) -> bool {
    forall|i: int, j: int| 0 <= i < scopes.len() && 0 <= j < scopes[i]@.len() ==> (#[trigger] scopes[i]@[j]).1.ty.idx < n
}

proof fn lemma_lookup_in_bounded(entries: Seq<(String, VarDef)>, name: Seq<char>, n: nat)
    requires
        forall|j: int| 0 <= j < entries.len() ==> (#[trigger] entries[j]).1.ty.idx < n,
    ensures
        lookup_in(entries, name) matches Some(d) ==> d.ty.idx < n,
    decreases entries.len(),
{
    if entries.len() > 0 {
        assert(entries[entries.len() - 1].1.ty.idx < n);
        let t = entries.drop_last();
        assert forall|j: int| 0 <= j < t.len() implies (#[trigger] t[j]).1.ty.idx < n by {
            assert(t[j] == entries[j]);
        }
        lemma_lookup_in_bounded(t, name, n);
    }
}

pub proof fn lemma_lookup_scopes_bounded(scopes: Seq<Vec<(String, VarDef)>>, name: Seq<char>, n: nat)
    requires
        scopes_bounded(scopes, n),
    ensures
        lookup_scopes(scopes, name) matches Some(d) ==> d.ty.idx < n,
    decreases scopes.len(),
{
    if scopes.len() > 0 {
        let last = scopes[scopes.len() - 1]@;
        assert forall|j: int| 0 <= j < last.len() implies (#[trigger] last[j]).1.ty.idx < n by {
            assert(scopes[scopes.len() - 1]@[j] == last[j]);
        }
        lemma_lookup_in_bounded(last, name, n);
        let t = scopes.drop_last();
        assert forall|i: int, j: int| 0 <= i < t.len() && 0 <= j < t[i]@.len() implies (#[trigger] t[i]@[j]).1.ty.idx < n by {
            assert(t[i] == scopes[i]);
        }
        lemma_lookup_scopes_bounded(t, name, n);
    }
}

/// The nested scopes of a function body, innermost last.
pub struct BasicScopes {
    pub scopes: Vec<Vec<(String, VarDef)>>,
}

fn lookup_entries(entries: &Vec<(String, VarDef)>, name: &str) -> (r: Option<VarDef>)
    ensures
        r == lookup_in(entries@, name@),
{
    let mut i = entries.len();
    assert(entries@.take(i as int) == entries@);
    while i > 0
        invariant
            i <= entries.len(),
            lookup_in(entries@, name@) == lookup_in(entries@.take(i as int), name@),
        decreases i,
    {
        let ghost t = entries@.take(i as int);
        assert(t.drop_last() == entries@.take(i - 1));
        assert(t.last() == entries@[i - 1]);
        if str_eq(entries[i - 1].0.as_str(), name) {
            return Some(entries[i - 1].1);
        }
        i = i - 1;
    }
    None
}

impl BasicScopes {
    pub fn new() -> (s: BasicScopes)
        ensures
            s.scopes@.len() == 0,
    {
        BasicScopes { scopes: Vec::new() }
    }

    /// Opens a new innermost scope.
    pub fn push(&mut self)
        ensures
            final(self).scopes@.drop_last() == old(self).scopes@,
            final(self).scopes@.len() == old(self).scopes@.len() + 1,
            final(self).scopes@.last()@.len() == 0,
    {
        self.scopes.push(Vec::new());
    }

    /// Closes the innermost scope.
    pub fn pop(&mut self)
        requires
            old(self).scopes@.len() > 0,
        ensures
            final(self).scopes@ == old(self).scopes@.drop_last(),
    {
        self.scopes.pop();
    }

    /// Defines a variable in the innermost scope; it hides earlier ones of the same name.
    pub fn regist_variable(&mut self, name: &str, def: VarDef)
        requires
            old(self).scopes@.len() > 0,
        ensures
            final(self).scopes@.len() == old(self).scopes@.len(),
            forall|i: int| 0 <= i < old(self).scopes@.len() - 1 ==> final(self).scopes@[i] == old(self).scopes@[i],
            final(self).scopes@.last()@.drop_last() == old(self).scopes@.last()@,
            final(self).scopes@.last()@.len() == old(self).scopes@.last()@.len() + 1,
            final(self).scopes@.last()@.last().0@ == name@,
            final(self).scopes@.last()@.last().1 == def,
    {
        let last = self.scopes.len() - 1;
        let s = text(name);
        self.scopes[last].push((s, def));
    }

    /// The variable a name refers to.
    pub fn search_variable(&self, name: &str) -> (r: Option<VarDef>)
        ensures
            r == lookup_scopes(self.scopes@, name@),
    {
        let mut i = self.scopes.len();
        assert(self.scopes@.take(i as int) == self.scopes@);
        while i > 0
            invariant
                i <= self.scopes.len(),
                lookup_scopes(self.scopes@, name@) == lookup_scopes(self.scopes@.take(i as int), name@),
            decreases i,
        {
            let ghost t = self.scopes@.take(i as int);
            assert(t.drop_last() == self.scopes@.take(i - 1));
            assert(t.last() == self.scopes@[i - 1]);
            match lookup_entries(&self.scopes[i - 1], name) {
                Some(d) => return Some(d),
                None => {},
            }
            i = i - 1;
        }
        None
    }
}


/// The group of the last parameter of that name.
pub open spec fn lookup_param(params: Seq<(String, GroupIdx)>, name: Seq<char>) -> Option<GroupIdx>
    decreases params.len(),
{
    if params.len() == 0 {
        None
    } else if params.last().0@ == name {
        Some(params.last().1)
    } else {
        lookup_param(params.drop_last(), name)
    }
}

pub proof fn lemma_lookup_param_bounded(params: Seq<(String, GroupIdx)>, name: Seq<char>, n: nat)
    requires
        forall|i: int| 0 <= i < params.len() ==> (#[trigger] params[i]).1.idx < n,
    ensures
        lookup_param(params, name) matches Some(g) ==> g.idx < n,
    decreases params.len(),
{
    if params.len() > 0 {
        assert(params[params.len() - 1].1.idx < n);
        let t = params.drop_last();
        assert forall|i: int| 0 <= i < t.len() implies (#[trigger] t[i]).1.idx < n by {
            assert(t[i] == params[i]);
        }
        lemma_lookup_param_bounded(t, name, n);
    }
}

/// The state of a function under generation: its mangled name, how many temporaries it has
/// named, its parameters with their groups, and the groups that decide its types.
pub struct FnScope {
    pub fn_name: String,
    pub alloc_id: usize,
    pub parameters: Vec<(String, GroupIdx)>,
    pub declare_map: DeclareGraph,
}

/// The name of the `n`th temporary: a space and the number, so that it is no identifier.
pub open spec fn temp_name_of(n: nat) -> Seq<char> {
    seq![' '] + decimal(n)
}

impl FnScope {
    /// The scope of a function: each parameter (paired with its span) gets a group whose
    /// only type is the parameter's type.
    pub fn new(fn_name: &str, params: &Vec<Parameter>, spans: &Vec<Span>) -> (s: FnScope)
        ensures
            s.fn_name@ == fn_name@,
            s.alloc_id == 0,
            s.declare_map.wf(),
            s.parameters@.len() == if params@.len() <= spans@.len() { params@.len() } else { spans@.len() },
            s.declare_map.spec_groups().len() == s.parameters@.len(),
            forall|i: int| 0 <= i < s.parameters@.len() ==> {
                &&& (#[trigger] s.parameters@[i]).0@ == params@[i].name@
                &&& s.parameters@[i].1.idx == i
            },
    {
        let mut declare_map = DeclareGraph::new();
        let mut parameters: Vec<(String, GroupIdx)> = Vec::new();
        let n = if params.len() <= spans.len() { params.len() } else { spans.len() };
        let mut i: usize = 0;
        while i < n
            invariant
                i <= n,
                n <= params.len(),
                n <= spans.len(),
                declare_map.wf(),
                parameters@.len() == i,
                declare_map.spec_groups().len() == i,
                forall|k: int| 0 <= k < i ==> {
                    &&& (#[trigger] parameters@[k]).0@ == params@[k].name@
                    &&& parameters@[k].1.idx == k
                },
            decreases n - i,
        {
            let mut items: Vec<Type> = Vec::new();
            items.push(Type::from_type(params[i].ty.clone_ty()));
            let g = declare_map.new_static_group(spans[i], items);
            parameters.push((params[i].name.clone(), g));
            i = i + 1;
        }
        FnScope { fn_name: text(fn_name), alloc_id: 0, parameters, declare_map }
    }

    /// A fresh name for a temporary.
    pub fn temp_name(&mut self) -> (s: String)
        ensures
            s@ == temp_name_of(old(self).alloc_id as nat),
            final(self).alloc_id == old(self).alloc_id.wrapping_add(1),
            final(self).fn_name == old(self).fn_name,
            final(self).parameters == old(self).parameters,
            final(self).declare_map == old(self).declare_map,
    {
        let mut s = String::new();
        push_char(&mut s, ' ');
        append_decimal(&mut s, self.alloc_id);
        self.alloc_id = self.alloc_id.wrapping_add(1);
        s
    }

    /// The parameter a name refers to; parameters cannot be assigned.
    pub fn search_parameter(&self, name: &str) -> (r: Option<VarDef>)
        ensures
            r == (match lookup_param(self.parameters@, name@) {
                Some(g) => Some(VarDef { ty: g, mutable: false }),
                None => None,
            }),
    {
        let mut i = self.parameters.len();
        assert(self.parameters@.take(i as int) == self.parameters@);
        while i > 0
            invariant
                i <= self.parameters.len(),
                lookup_param(self.parameters@, name@) == lookup_param(self.parameters@.take(i as int), name@),
            decreases i,
        {
            let ghost t = self.parameters@.take(i as int);
            assert(t.drop_last() == self.parameters@.take(i - 1));
            assert(t.last() == self.parameters@[i - 1]);
            if str_eq(self.parameters[i - 1].0.as_str(), name) {
                return Some(VarDef { ty: self.parameters[i - 1].1, mutable: false });
            }
            i = i - 1;
        }
        None
    }
}

/// The functions defined so far, and the mangler that names them.
pub struct Defines<M: Mangle> {
    pub defs: Defs,
    pub mangler: Mangler<M>,
}

impl<M: Mangle> Defines<M> {
    /// No functions yet, and no prefix.
    pub fn new() -> (d: Defines<M>)
        ensures
            d.defs.fn_signs.spec_fns().len() == 0,
            d.mangler.prefix@.len() == 0,
    {
        Defines { defs: Defs::new(), mangler: Mangler::new(Vec::new()) }
    }

    /// Defines a function under its mangled name, which is returned; a function with the
    /// same mangled name must not have been defined before.
    pub fn regist_fn(&mut self, name: &str, sign: FnSign) -> (r: Result<String, Error>)
        requires
            params_primitive(sign.params@),
        ensures
            final(self).mangler == old(self).mangler,
            ({
                let mangled = M::spec_mangle(fn_unit(prefix_names(old(self).mangler.prefix@), name@, sign.params@));
                match r {
                    Ok(m) => m@ == mangled && old(self).defs.fn_signs.spec_mangled(mangled) is None
                        && final(self).defs.fn_signs.spec_fns().len() == old(self).defs.fn_signs.spec_fns().len() + 1
                        && final(self).defs.fn_signs.spec_fns().drop_last() == old(self).defs.fn_signs.spec_fns()
                        && final(self).defs.fn_signs.spec_fns().last().0@ == name@
                        && final(self).defs.fn_signs.spec_fns().last().1.name@ == mangled
                        && final(self).defs.fn_signs.spec_fns().last().1.sign.ty@ == sign.ty@
                        && final(self).defs.fn_signs.spec_fns().last().1.sign.params@ == sign.params@
                        && final(self).defs.fn_signs.spec_fns().last().1.sign.retty_span == sign.retty_span
                        && final(self).defs.fn_signs.spec_fns().last().1.sign.sign_span == sign.sign_span,
                    Err(e) => old(self).defs.fn_signs.spec_mangled(mangled) is Some
                        && final(self).defs.fn_signs.spec_fns() == old(self).defs.fn_signs.spec_fns()
                        && e.span == sign.sign_span
                        && e.reason@ == "double define for function "@ + name@
                        && e.messages@.len() >= 2
                        && e.messages@[0]@ == MessageV::Rich("funcion "@ + name@ + " has been definded here"@,
                            old(self).defs.fn_signs.spec_mangled(mangled)->Some_0.sign.sign_span),
                }
            }),
    {
        let mangled = self.mangler.mangle_fn(name, &sign);
        match self.defs.fn_signs.try_get_mangled(mangled.as_str()) {
            Some(previous) => {
                let mut reason = text("double define for function ");
                append_str(&mut reason, name);
                let mut here = text("funcion ");
                append_str(&mut here, name);
                append_str(&mut here, " has been definded here");
                let mut err = Error::new(sign.sign_span, reason).append(Message::Rich(here, previous.sign.sign_span));
                let mut overload = text("note: if you want to overload funcion ");
                append_str(&mut overload, name);
                append_str(&mut overload, ", you can define them with different parameters");
                if previous.sign.ty.same_as(&sign.ty) {
                    err = err.append(Message::Text(overload));
                } else {
                    err = err.append(Message::Text(text("note: overload which only return type is differnet is not allowed")));
                    err = err.append(Message::Text(overload));
                }
                Err(err)
            }
            None => {
                let unmangled = text(name);
                self.defs.fn_signs.new_fn(unmangled, mangled.clone(), sign);
                Ok(mangled)
            }
        }
    }
}


/// A temporary's name never is a word of the source: a word holds no white space, and a
/// temporary's name starts with a space.
pub proof fn law_temp_names_are_no_words(chars: Seq<char>, toks: Seq<crate::lex::Token>, i: int, n: nat)
    requires
        crate::lex::tokens_of(chars, toks, chars.len() as int),
        0 <= i < toks.len(),
    ensures
        toks[i].string@ != temp_name_of(n),
{
    let t = toks[i];
    assert(crate::lex::token_of(chars, t));
    if t.string@ == temp_name_of(n) {
        assert(t.string@[0] == ' ');
        assert(t.string@[0] == chars[t.span.start as int]);
        assert(!crate::lex::spec_is_whitespace(chars[t.span.start as int]));
    }
}

/// Once `regist_fn` has defined a function, its mangled name is taken, so that defining a
/// function of the same name and parameter types again fails.
pub proof fn law_defined_name_is_taken<M: Mangle>(d: Defines<M>, name: Seq<char>, params: Seq<Parameter>)
    requires
        d.defs.fn_signs.spec_fns().len() > 0,
        d.defs.fn_signs.spec_fns().last().1.name@ == M::spec_mangle(fn_unit(prefix_names(d.mangler.prefix@), name, params)),
    ensures
        d.defs.fn_signs.spec_mangled(M::spec_mangle(fn_unit(prefix_names(d.mangler.prefix@), name, params))) is Some,
{
}

} // verus!
