//! The environment: the bindings that symbols resolve through.

use crate::expr::{Builtin, Form, LispExpr};
use vstd::hash_map::StringHashMap;
use vstd::prelude::*;
use vstd::string::*;

verus! {

/// The bindings of symbol names to expressions.
pub struct LispEnv {
    pub data: StringHashMap<LispExpr>,
}

impl View for LispEnv {
    type V = Map<Seq<char>, Form>;

    open spec fn view(&self) -> Map<Seq<char>, Form> {
        self.data@.map_values(|e: LispExpr| e@)
    }
}

/// What `name` is bound to, if it is bound.
pub open spec fn lookup(b: Map<Seq<char>, Form>, name: Seq<char>) -> Option<Form> {
    if b.contains_key(name) {
        Some(b[name])
    } else {
        None
    }
}

/// The bindings that every session starts with: the four arithmetic
/// operators.
pub open spec fn default_bindings() -> Map<Seq<char>, Form> {
    Map::empty().insert("+"@, Form::Func(Builtin::Add)).insert(
        "-"@,
        Form::Func(Builtin::Sub),
    ).insert("*"@, Form::Func(Builtin::Mul)).insert("/"@, Form::Func(Builtin::Div))
}

/// The default bindings give each operator its operation, and bind nothing
/// else.
pub proof fn lemma_default_bindings()
    ensures
        lookup(default_bindings(), seq!['+']) == Some(Form::Func(Builtin::Add)),
        lookup(default_bindings(), seq!['-']) == Some(Form::Func(Builtin::Sub)),
        lookup(default_bindings(), seq!['*']) == Some(Form::Func(Builtin::Mul)),
        lookup(default_bindings(), seq!['/']) == Some(Form::Func(Builtin::Div)),
        forall|name: Seq<char>|
            name != seq!['+'] && name != seq!['-'] && name != seq!['*'] && name != seq!['/']
                ==> lookup(default_bindings(), name) is None,
{
    reveal_strlit("+");
    reveal_strlit("-");
    reveal_strlit("*");
    reveal_strlit("/");
    assert("+"@ =~= seq!['+']);
    assert("-"@ =~= seq!['-']);
    assert("*"@ =~= seq!['*']);
    assert("/"@ =~= seq!['/']);
    assert(seq!['+'][0] == '+');
    assert(seq!['-'][0] == '-');
    assert(seq!['*'][0] == '*');
    assert(seq!['/'][0] == '/');
}

impl LispEnv {
    /// An environment that binds nothing.
    pub fn new() -> (env: LispEnv)
        ensures
            env@ == Map::<Seq<char>, Form>::empty(),
    {
        let env = LispEnv { data: StringHashMap::new() };
        proof {
            assert(env@ =~= Map::<Seq<char>, Form>::empty());
        }
        env
    }

    /// Binds `name` to `value`, in place of what it was bound to. Every
    /// other name keeps its binding.
    pub fn insert(&mut self, name: String, value: LispExpr)
        ensures
            final(self)@ == old(self)@.insert(name@, value@),
    {
        let ghost before = self@;
        let ghost key = name@;
        let ghost bound = value@;
        self.data.insert(name, value);
        proof {
            assert(self@ =~= before.insert(key, bound));
        }
    }

    /// The expression that `name` is bound to, if it is bound.
    pub fn get(&self, name: &String) -> (r: Option<&LispExpr>)
        ensures
            match lookup(self@, name@) {
                Some(f) => r matches Some(e) && e@ == f,
                None => r is None,
            },
    {
        self.data.get(name.as_str())
    }
}

/// The environment that every session starts with.
pub fn default_env() -> (env: LispEnv)
    ensures
        env@ == default_bindings(),
{
    let mut env = LispEnv::new();
    env.insert(String::from_str("+"), LispExpr::Func(Builtin::Add));
    env.insert(String::from_str("-"), LispExpr::Func(Builtin::Sub));
    env.insert(String::from_str("*"), LispExpr::Func(Builtin::Mul));
    env.insert(String::from_str("/"), LispExpr::Func(Builtin::Div));
    env
}

} // verus!
