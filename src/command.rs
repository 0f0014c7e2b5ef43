use vstd::prelude::*;

verus! {

/// A command of the tree that the parser builds and the evaluator walks.
#[derive(Debug, PartialEq)]
pub enum Command {
    OpPush(i32),
    OpAdd,
    OpSub,
    OpMul,
    OpDiv,
    OpMod,
    OpDump,
    OpIdent(String),
    OpEnd,
    OpDel(String),
    OpEq,
    OpNeq,
    OpGt,
    OpLt,
    OpGte,
    OpLte,
    CfIf(Vec<Command>),
    CfElse(Vec<Command>),
    CfDFn(String, Vec<String>, Vec<Command>),
    CfCall(String),
    CfFor(String, Option<i32>, Vec<Command>),
}

/// The mathematical value of a command: names as character sequences and
/// nested bodies as sequences.
pub enum Cmd {
    Push(i32),
    Add,
    Sub,
    Mul,
    Div,
    Mod,
    Dump,
    Ident(Seq<char>),
    End,
    Del(Seq<char>),
    Eq,
    Neq,
    Gt,
    Lt,
    Gte,
    Lte,
    If(Seq<Cmd>),
    Else(Seq<Cmd>),
    DefFn(Seq<char>, Seq<Seq<char>>, Seq<Cmd>),
    Call(Seq<char>),
    For(Seq<char>, Option<i32>, Seq<Cmd>),
}

pub open spec fn names_model(s: Seq<String>) -> Seq<Seq<char>> {
    s.map_values(|x: String| x@)
}

pub open spec fn model(c: Command) -> Cmd
    decreases c,
{
    match c {
        Command::OpPush(v) => Cmd::Push(v),
        Command::OpAdd => Cmd::Add,
        Command::OpSub => Cmd::Sub,
        Command::OpMul => Cmd::Mul,
        Command::OpDiv => Cmd::Div,
        Command::OpMod => Cmd::Mod,
        Command::OpDump => Cmd::Dump,
        Command::OpIdent(n) => Cmd::Ident(n@),
        Command::OpEnd => Cmd::End,
        Command::OpDel(n) => Cmd::Del(n@),
        Command::OpEq => Cmd::Eq,
        Command::OpNeq => Cmd::Neq,
        Command::OpGt => Cmd::Gt,
        Command::OpLt => Cmd::Lt,
        Command::OpGte => Cmd::Gte,
        Command::OpLte => Cmd::Lte,
        Command::CfIf(b) => Cmd::If(models(b@)),
        Command::CfElse(b) => Cmd::Else(models(b@)),
        Command::CfDFn(n, ps, b) => Cmd::DefFn(n@, names_model(ps@), models(b@)),
        Command::CfCall(n) => Cmd::Call(n@),
        Command::CfFor(n, bound, b) => Cmd::For(n@, bound, models(b@)),
    }
}

pub open spec fn models(s: Seq<Command>) -> Seq<Cmd>
    decreases s,
{
    if s.len() == 0 {
        seq![]
    } else {
        models(s.drop_last()).push(model(s.last()))
    }
}

pub proof fn lemma_models_len(s: Seq<Command>)
    ensures
        models(s).len() == s.len(),
    decreases s.len(),
{
    if s.len() > 0 {
        lemma_models_len(s.drop_last());
    }
}

pub proof fn lemma_models_push(s: Seq<Command>, c: Command)
    ensures
        models(s.push(c)) == models(s).push(model(c)),
{
    assert(s.push(c).drop_last() =~= s);
}

pub fn copy_names(v: &Vec<String>) -> (r: Vec<String>)
    ensures
        names_model(r@) == names_model(v@),
{
    let mut r: Vec<String> = Vec::new();
    let mut i: usize = 0;
    while i < v.len()
        invariant
            i <= v@.len(),
            r@ == v@.subrange(0, i as int),
        decreases v@.len() - i,
    {
        r.push(v[i].clone());
        i = i + 1;
        assert(r@ =~= v@.subrange(0, i as int));
    }
    assert(r@ =~= v@);
    r
}

/// A copy of a command tree with the same value.
pub fn copy_command(c: &Command) -> (r: Command)
    ensures
        model(r) == model(*c),
    decreases c,
{
    match c {
        Command::OpPush(v) => Command::OpPush(*v),
        Command::OpAdd => Command::OpAdd,
        Command::OpSub => Command::OpSub,
        Command::OpMul => Command::OpMul,
        Command::OpDiv => Command::OpDiv,
        Command::OpMod => Command::OpMod,
        Command::OpDump => Command::OpDump,
        Command::OpIdent(n) => Command::OpIdent(n.clone()),
        Command::OpEnd => Command::OpEnd,
        Command::OpDel(n) => Command::OpDel(n.clone()),
        Command::OpEq => Command::OpEq,
        Command::OpNeq => Command::OpNeq,
        Command::OpGt => Command::OpGt,
        Command::OpLt => Command::OpLt,
        Command::OpGte => Command::OpGte,
        Command::OpLte => Command::OpLte,
        Command::CfIf(b) => Command::CfIf(copy_commands(b)),
        Command::CfElse(b) => Command::CfElse(copy_commands(b)),
        Command::CfDFn(n, ps, b) => Command::CfDFn(n.clone(), copy_names(ps), copy_commands(b)),
        Command::CfCall(n) => Command::CfCall(n.clone()),
        Command::CfFor(n, bound, b) => Command::CfFor(n.clone(), *bound, copy_commands(b)),
    }
}

/// A copy of a command sequence with the same value.
pub fn copy_commands(v: &Vec<Command>) -> (r: Vec<Command>)
    ensures
        models(r@) == models(v@),
    decreases v,
{
    let mut r: Vec<Command> = Vec::new();
    let mut i: usize = 0;
    while i < v.len()
        invariant
            i <= v@.len(),
            models(r@) == models(v@.subrange(0, i as int)),
        decreases v@.len() - i,
    {
        proof {
            broadcast use vstd::std_specs::vec::axiom_vec_index_decreases;
            assert(decreases_to!(v => v[i as int]));
        }
        let c = copy_command(&v[i]);
        proof {
            lemma_models_push(r@, c);
            lemma_models_push(v@.subrange(0, i as int), v@[i as int]);
            assert(v@.subrange(0, i as int).push(v@[i as int]) =~= v@.subrange(0, i + 1));
        }
        r.push(c);
        i = i + 1;
    }
    assert(v@.subrange(0, v@.len() as int) =~= v@);
    r
}

} // verus!
