use vstd::prelude::*;
use crate::ir;
use crate::lex::{chars_of, tokenize, tokens_of, Token};
use crate::mangle::ChineseMangler;
use crate::parse::stmt::{items_at, parse_items, plain_items, Item};
use crate::semantic::items::{body_resolves, defined_names, fn_defines, generate_items, ir_signature_matches, lemma_overloads_named, signatures_ok, GenerateError};
use crate::semantic::generator::callable;
use crate::semantic::scope::Defines;
use crate::semantic::support::items_supported;
use crate::span::Error;

verus! {

/// What the front end makes of a source: its characters, its tokens, and the
/// items parsed from the tokens (or the error that stopped the parse).
pub struct Ast {
    pub chars: Vec<char>,
    pub tokens: Vec<Token>,
    pub items: Result<Vec<Item>, Error>,
}

/// Reads a source: splits it into tokens (the maximal runs of characters that are not white
/// space) and parses the items from them, which then cover all the tokens one after the other.
pub fn generate_ast(src: &str) -> (a: Ast)
    ensures
        a.chars@ == src@,
        tokens_of(a.chars@, a.tokens@, a.chars@.len() as int),
        a.items matches Ok(v) ==> items_at(a.tokens@, v@, 0, a.tokens@.len() as int),
        a.tokens@.len() == 0 ==> (a.items matches Ok(v) && v@.len() == 0),
        plain_items(a.tokens@, 0) ==> a.items is Ok,
{
    let chars = chars_of(src);
    let tokens = tokenize(&chars);
    let items = parse_items(&tokens);
    Ast { chars, tokens, items }
}

/// Generates the IR of parsed items, with the functions named by the Chinese mangler:
/// one function of the IR for each function of the items, in order, each one ending
/// in a return; or the errors of the signatures (exactly when a type of a signature is no
/// type, or two functions have the same name and parameter types), or those of the bodies.
pub fn generate_ir(items: &Vec<Item>) -> (r: Result<Vec<ir::Item<ir::Value>>, GenerateError>)
    requires
        items_supported(items@),
    ensures
        r matches Ok(v) ==> v@.len() == fn_defines(items@).len()
            && forall|k: int| 0 <= k < v@.len() ==> match #[trigger] v@[k] {
                ir::Item::FnDefine(f) => f.body.returned
                    && ir_signature_matches(f, fn_defines(items@)[k])
                    && f.export == (fn_defines(items@)[k].export is Some),
            },
        r matches Err(GenerateError::Signatures(es)) ==> es@.len() > 0,
        (r matches Err(GenerateError::Signatures(_))) <==> !signatures_ok::<ChineseMangler>(
            Seq::empty(), Seq::empty(), fn_defines(items@)),
        r matches Err(GenerateError::Bodies(ess)) ==> ess@.len() > 0,
        r is Ok ==> forall|k: int| 0 <= k < fn_defines(items@).len() ==>
            body_resolves(defined_names(fn_defines(items@)), #[trigger] fn_defines(items@)[k]),
        signatures_ok::<ChineseMangler>(Seq::empty(), Seq::empty(), fn_defines(items@))
            && (exists|k: int| 0 <= k < fn_defines(items@).len()
                && !body_resolves(defined_names(fn_defines(items@)), #[trigger] fn_defines(items@)[k]))
            ==> r matches Err(GenerateError::Bodies(_)),
{
    let mut define: Defines<ChineseMangler> = Defines::new();
    proof {
        assert(crate::mangle::prefix_names(define.mangler.prefix@) =~= Seq::<Seq<char>>::empty());
        assert(define.defs.fn_signs.spec_fns() =~= Seq::empty());
    }
    let r = generate_items(&mut define, items);
    proof {
        let fds = fn_defines(items@);
        if signatures_ok::<ChineseMangler>(Seq::empty(), Seq::empty(), fds) {
            let fns = define.defs.fn_signs.spec_fns();
            assert forall|n: Seq<char>| #[trigger] (callable(define.defs))(n) == (defined_names(fds))(n) by {
                lemma_overloads_named(fns, n, fns.len() as int);
                if exists|i: int| 0 <= i < fns.len() && (#[trigger] fns[i]).0@ == n {
                    let i = choose|i: int| 0 <= i < fns.len() && (#[trigger] fns[i]).0@ == n;
                    assert(fds[i].name.0.string@ == n);
                }
                if exists|k: int| 0 <= k < fds.len() && (#[trigger] fds[k]).name.0.string@ == n {
                    let k = choose|k: int| 0 <= k < fds.len() && (#[trigger] fds[k]).name.0.string@ == n;
                    assert(fns[k].0@ == n);
                }
            }
            assert(callable(define.defs) =~= defined_names(fds));
        }
    }
    r
}

} // verus!
