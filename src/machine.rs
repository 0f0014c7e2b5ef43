use vstd::prelude::*;
use crate::command::{Command, Cmd, model, models, names_model, copy_commands, copy_names};

verus! {

/// What a program run emits, in order.
#[derive(Debug, PartialEq, Eq)]
pub enum Output {
    /// A value printed by `$`.
    Value(i32),
    /// A call of a function that was never defined; the run goes on.
    MissingFunction(String),
}

/// The value of an output item.
pub enum Event {
    Value(i32),
    MissingFunction(Seq<char>),
}

impl View for Output {
    type V = Event;

    open spec fn view(&self) -> Event {
        match self {
            Output::Value(v) => Event::Value(*v),
            Output::MissingFunction(n) => Event::MissingFunction(n@),
        }
    }
}

/// Why a run stopped.
#[derive(Clone, Copy, Debug, PartialEq, Eq, Structural)]
pub enum RunError {
    /// An operator, `$`, a binding, a condition, a loop bound or a call
    /// needed more values than the stack held.
    StackUnderflow,
    /// An arithmetic result does not fit in an `i32`.
    Overflow,
    /// Division or remainder by zero.
    DivisionByZero,
    /// Blocks and calls nested deeper than the evaluator allows.
    TooDeep,
}

/// How deep blocks and calls may nest in one run.
pub const MAX_DEPTH: u64 = 1000;

/// A function of the table: its parameter names and its body.
pub type FnModel = (Seq<Seq<char>>, Seq<Cmd>);

/// The state of a run: operand stack (top last), variable store, function
/// table and what has been emitted.
pub struct Machine {
    pub stack: Seq<i32>,
    pub vars: Seq<(Seq<char>, i32)>,
    pub fns: Seq<(Seq<char>, FnModel)>,
    pub out: Seq<Event>,
}

pub open spec fn empty_machine() -> Machine {
    Machine { stack: seq![], vars: seq![], fns: seq![], out: seq![] }
}

/// The first position from `i` on that holds the name `k`, or -1.
pub open spec fn slot_from<V>(s: Seq<(Seq<char>, V)>, k: Seq<char>, i: int) -> int
    decreases s.len() - i,
{
    if i < 0 || i >= s.len() {
        -1
    } else if s[i].0 == k {
        i
    } else {
        slot_from(s, k, i + 1)
    }
}

pub open spec fn slot<V>(s: Seq<(Seq<char>, V)>, k: Seq<char>) -> int {
    slot_from(s, k, 0)
}

/// What the name `k` is bound to.
pub open spec fn lookup<V>(s: Seq<(Seq<char>, V)>, k: Seq<char>) -> Option<V> {
    if slot(s, k) >= 0 {
        Some(s[slot(s, k)].1)
    } else {
        None
    }
}

/// Binds `k` to `v`, replacing an earlier binding.
pub open spec fn assign<V>(s: Seq<(Seq<char>, V)>, k: Seq<char>, v: V) -> Seq<(Seq<char>, V)> {
    if slot(s, k) >= 0 {
        s.update(slot(s, k), (k, v))
    } else {
        s.push((k, v))
    }
}

/// Removes the binding of `k`, if any.
pub open spec fn unbind<V>(s: Seq<(Seq<char>, V)>, k: Seq<char>) -> Seq<(Seq<char>, V)> {
    if slot(s, k) >= 0 {
        s.remove(slot(s, k))
    } else {
        s
    }
}

pub open spec fn fits(x: int) -> Result<i32, RunError> {
    if i32::MIN <= x && x <= i32::MAX {
        Ok(x as i32)
    } else {
        Err(RunError::Overflow)
    }
}

/// Quotient rounded toward zero.
pub open spec fn trunc_div(x: int, d: int) -> int {
    if x == 0 {
        0
    } else if x > 0 && d > 0 {
        x / d
    } else if x < 0 && d < 0 {
        (x * -1) / (d * -1)
    } else if x < 0 {
        ((x * -1) / d) * -1
    } else {
        (x / (d * -1)) * -1
    }
}

/// Remainder with the sign of the dividend.
pub open spec fn trunc_rem(x: int, d: int) -> int {
    if x == 0 {
        0
    } else if x > 0 && d > 0 {
        x % d
    } else if x < 0 && d < 0 {
        ((x * -1) % (d * -1)) * -1
    } else if x < 0 {
        ((x * -1) % d) * -1
    } else {
        x % (d * -1)
    }
}

pub open spec fn flag(b: bool) -> i32 {
    if b {
        1
    } else {
        0
    }
}

pub open spec fn is_binary(c: Cmd) -> bool {
    match c {
        Cmd::Add | Cmd::Sub | Cmd::Mul | Cmd::Div | Cmd::Mod | Cmd::Eq | Cmd::Neq | Cmd::Gt
        | Cmd::Lt | Cmd::Gte | Cmd::Lte => true,
        _ => false,
    }
}

/// The result of a binary operator where `a` is popped first (the top) and
/// `b` second.
pub open spec fn binary(c: Cmd, a: i32, b: i32) -> Result<i32, RunError> {
    match c {
        Cmd::Add => fits(a + b),
        Cmd::Sub => fits(b - a),
        Cmd::Mul => fits(a * b),
        Cmd::Div => if a == 0 {
            Err(RunError::DivisionByZero)
        } else {
            fits(trunc_div(b as int, a as int))
        },
        Cmd::Mod => if a == 0 {
            Err(RunError::DivisionByZero)
        } else {
            fits(trunc_rem(b as int, a as int))
        },
        Cmd::Eq => Ok(flag(a == b)),
        Cmd::Neq => Ok(flag(a != b)),
        Cmd::Gt => Ok(flag(a < b)),
        Cmd::Lt => Ok(flag(a > b)),
        Cmd::Gte => Ok(flag(b <= a)),
        _ => Ok(flag(b >= a)),
    }
}

/// Binds each parameter, first to last, to a value popped off `stack`.
pub open spec fn bind_params(
    vars: Seq<(Seq<char>, i32)>,
    stack: Seq<i32>,
    ps: Seq<Seq<char>>,
) -> Seq<(Seq<char>, i32)>
    decreases ps.len(),
{
    if ps.len() == 0 || stack.len() == 0 {
        vars
    } else {
        bind_params(assign(vars, ps[0], stack.last()), stack.drop_last(), ps.drop_first())
    }
}

pub open spec fn with_stack(m: Machine, s: Seq<i32>) -> Machine {
    Machine { stack: s, ..m }
}

pub open spec fn with_vars(m: Machine, v: Seq<(Seq<char>, i32)>) -> Machine {
    Machine { vars: v, ..m }
}

/// Runs a command sequence; the result is the final state and the error
/// that stopped the run, if one did.
pub open spec fn eval_seq(cs: Seq<Cmd>, m: Machine, depth: nat) -> (Machine, Option<RunError>)
    decreases depth, 2int, cs.len(),
{
    if cs.len() == 0 {
        (m, None)
    } else {
        let (m1, r) = eval_cmd(cs[0], m, depth);
        if r is Some {
            (m1, r)
        } else {
            eval_seq(cs.drop_first(), m1, depth)
        }
    }
}

/// Runs iterations `i .. n` of a loop over `var`.
pub open spec fn eval_loop(
    var: Seq<char>,
    i: int,
    n: int,
    body: Seq<Cmd>,
    m: Machine,
    depth: nat,
) -> (Machine, Option<RunError>)
    decreases depth, 0int, n - i,
{
    if i >= n {
        (m, None)
    } else if depth == 0 {
        (m, Some(RunError::TooDeep))
    } else {
        let (m1, r) = eval_seq(body, with_vars(m, assign(m.vars, var, i as i32)), (depth - 1) as nat);
        if r is Some {
            (m1, r)
        } else {
            eval_loop(var, i + 1, n, body, m1, depth)
        }
    }
}

/// Runs one command.
pub open spec fn eval_cmd(c: Cmd, m: Machine, depth: nat) -> (Machine, Option<RunError>)
    decreases depth, 1int, 0int,
{
    let s = m.stack;
    let n = s.len();
    match c {
        Cmd::Push(v) => (with_stack(m, s.push(v)), None),
        Cmd::Dump => if n < 1 {
            (m, Some(RunError::StackUnderflow))
        } else {
            (Machine { stack: s.drop_last(), out: m.out.push(Event::Value(s.last())), ..m }, None)
        },
        Cmd::Ident(k) => match lookup(m.vars, k) {
            Some(v) => (with_stack(m, s.push(v)), None),
            None => if n < 1 {
                (m, Some(RunError::StackUnderflow))
            } else {
                (Machine { stack: s.drop_last(), vars: assign(m.vars, k, s.last()), ..m }, None)
            },
        },
        Cmd::End => (with_stack(m, seq![]), None),
        Cmd::Del(k) => (with_vars(m, unbind(m.vars, k)), None),
        Cmd::If(body) => if n < 1 {
            (m, Some(RunError::StackUnderflow))
        } else if s.last() == 1 {
            if depth == 0 {
                (m, Some(RunError::TooDeep))
            } else {
                let (m1, r) = eval_seq(body, with_stack(m, s.drop_last()), (depth - 1) as nat);
                if r is Some {
                    (m1, r)
                } else {
                    (with_stack(m1, seq![1i32]), None)
                }
            }
        } else {
            (with_stack(m, s.drop_last().push(0)), None)
        },
        Cmd::Else(body) => if n < 1 {
            (m, Some(RunError::StackUnderflow))
        } else if s.last() == 0 {
            if depth == 0 {
                (m, Some(RunError::TooDeep))
            } else {
                let (m1, r) = eval_seq(body, with_stack(m, s.drop_last()), (depth - 1) as nat);
                if r is Some {
                    (m1, r)
                } else {
                    (with_stack(m1, seq![]), None)
                }
            }
        } else {
            (with_stack(m, s.drop_last()), None)
        },
        Cmd::DefFn(k, ps, body) => (Machine { fns: assign(m.fns, k, (ps, body)), ..m }, None),
        Cmd::Call(k) => match lookup(m.fns, k) {
            None => (Machine { out: m.out.push(Event::MissingFunction(k)), ..m }, None),
            Some((ps, body)) => if n < ps.len() {
                (m, Some(RunError::StackUnderflow))
            } else if depth == 0 {
                (m, Some(RunError::TooDeep))
            } else {
                eval_seq(
                    body,
                    Machine {
                        stack: s.subrange(0, n - ps.len()),
                        vars: bind_params(m.vars, s, ps),
                        ..m
                    },
                    (depth - 1) as nat,
                )
            },
        },
        Cmd::For(var, bound, body) => match bound {
            Some(k) => eval_loop(var, 0, k as int, body, m, depth),
            None => if n < 1 {
                (m, Some(RunError::StackUnderflow))
            } else {
                eval_loop(var, 0, s.last() as int, body, with_stack(m, s.drop_last()), depth)
            },
        },
        _ => if n < 2 {
            (m, Some(RunError::StackUnderflow))
        } else {
            match binary(c, s[n - 1], s[n - 2]) {
                Err(e) => (m, Some(e)),
                Ok(v) => (with_stack(m, s.subrange(0, n - 2).push(v)), None),
            }
        },
    }
}


pub open spec fn err_of(r: Result<(), RunError>) -> Option<RunError> {
    match r {
        Ok(()) => None,
        Err(e) => Some(e),
    }
}

pub proof fn lemma_slot_from<V>(s: Seq<(Seq<char>, V)>, k: Seq<char>, i: int)
    requires
        0 <= i,
    ensures
        slot_from(s, k, i) == -1 || (i <= slot_from(s, k, i) < s.len() && s[slot_from(s, k, i)].0
            == k),
    decreases s.len() - i,
{
    if i < s.len() && s[i].0 != k {
        lemma_slot_from(s, k, i + 1);
    }
}

/// No name is bound twice.
pub open spec fn names_unique<V>(s: Seq<(Seq<char>, V)>) -> bool {
    forall|i: int, j: int| 0 <= i < j < s.len() ==> (#[trigger] s[i]).0 != (#[trigger] s[j]).0
}

proof fn lemma_slot_absent<V>(s: Seq<(Seq<char>, V)>, k: Seq<char>, i: int)
    requires
        0 <= i,
    ensures
        slot_from(s, k, i) == -1 <==> (forall|x: int| i <= x < s.len() ==> (#[trigger] s[x]).0 != k),
    decreases s.len() - i,
{
    if i < s.len() {
        lemma_slot_absent(s, k, i + 1);
    }
}

/// Binding a name keeps names unique, and its slot is then the only one
/// that holds it.
pub proof fn lemma_assign_unique<V>(s: Seq<(Seq<char>, V)>, k: Seq<char>, v: V)
    requires
        names_unique(s),
    ensures
        names_unique(assign(s, k, v)),
        slot(assign(s, k, v), k) >= 0,
        forall|i: int|
            0 <= i < assign(s, k, v).len() && (#[trigger] assign(s, k, v)[i]).0 == k ==> i == slot(
                assign(s, k, v),
                k,
            ),
{
    lemma_slot_from(s, k, 0);
    lemma_slot_absent(s, k, 0);
    let t = assign(s, k, v);
    lemma_slot_from(t, k, 0);
    lemma_slot_absent(t, k, 0);
    if slot(s, k) >= 0 {
        let j = slot(s, k);
        assert forall|x: int| 0 <= x < t.len() implies (#[trigger] t[x]).0 == s[x].0 by {}
        assert(slot(t, k) == j) by {
            assert(t[j].0 == k);
            if slot(t, k) != j {
                let y = slot(t, k);
                assert(s[y].0 == k);
                if y < j {
                    assert(s[y].0 != s[j].0);
                } else {
                    assert(s[j].0 != s[y].0);
                }
            }
        }
        assert forall|x: int| 0 <= x < t.len() && (#[trigger] t[x]).0 == k implies x == slot(t, k) by {
            if x != j {
                if x < j {
                    assert(s[x].0 != s[j].0);
                } else {
                    assert(s[j].0 != s[x].0);
                }
            }
        }
    } else {
        assert(t[s.len() as int].0 == k);
        assert forall|x: int| 0 <= x < t.len() && (#[trigger] t[x]).0 == k implies x == slot(t, k) by {
            if x < s.len() {
                assert(t[x] == s[x]);
            }
            if slot(t, k) < s.len() {
                assert(t[slot(t, k)] == s[slot(t, k)]);
            }
        }
        assert forall|i: int, j: int| 0 <= i < j < t.len() implies (#[trigger] t[i]).0 != (#[trigger] t[j]).0 by {
            if j < s.len() {
                assert(t[i] == s[i] && t[j] == s[j]);
            } else {
                assert(t[i] == s[i]);
            }
        }
    }
}

/// Removing a name keeps names unique, and the name is then unbound.
pub proof fn lemma_unbind_unique<V>(s: Seq<(Seq<char>, V)>, k: Seq<char>)
    requires
        names_unique(s),
    ensures
        names_unique(unbind(s, k)),
        lookup(unbind(s, k), k) is None,
{
    lemma_slot_from(s, k, 0);
    lemma_slot_absent(s, k, 0);
    let t = unbind(s, k);
    if slot(s, k) >= 0 {
        let j = slot(s, k);
        assert forall|i: int, m: int| 0 <= i < m < t.len() implies (#[trigger] t[i]).0 != (#[trigger] t[m]).0 by {
            let a = if i < j { i } else { i + 1 };
            let b = if m < j { m } else { m + 1 };
            assert(t[i] == s[a] && t[m] == s[b]);
        }
        assert forall|x: int| 0 <= x < t.len() implies (#[trigger] t[x]).0 != k by {
            let a = if x < j { x } else { x + 1 };
            assert(t[x] == s[a]);
            if a < j {
                assert(s[a].0 != s[j].0);
            } else {
                assert(s[j].0 != s[a].0);
            }
        }
    }
    lemma_slot_absent(t, k, 0);
}

/// A function of the table.
struct FnDef {
    name: String,
    params: Vec<String>,
    body: Vec<Command>,
}

/// The evaluator's execution context: an operand stack, a global variable
/// store, a function table, and the output emitted so far.
pub struct Interpreter {
    stack: Vec<i32>,
    heap: Vec<(String, i32)>,
    fn_stack: Vec<FnDef>,
    output: Vec<Output>,
}

pub open spec fn vars_view(h: Seq<(String, i32)>) -> Seq<(Seq<char>, i32)> {
    h.map_values(|p: (String, i32)| (p.0@, p.1))
}

spec fn fn_view(d: FnDef) -> (Seq<char>, FnModel) {
    (d.name@, (names_model(d.params@), models(d.body@)))
}

spec fn fns_view(f: Seq<FnDef>) -> Seq<(Seq<char>, FnModel)> {
    f.map_values(|d: FnDef| fn_view(d))
}

pub open spec fn out_view(o: Seq<Output>) -> Seq<Event> {
    o.map_values(|x: Output| x@)
}

impl View for Interpreter {
    type V = Machine;

    closed spec fn view(&self) -> Machine {
        Machine {
            stack: self.stack@,
            vars: vars_view(self.heap@),
            fns: fns_view(self.fn_stack@),
            out: out_view(self.output@),
        }
    }
}

/// The result of a binary operator command on the two topmost values.
fn apply_binary(c: &Command, a: i32, b: i32) -> (r: Result<i32, RunError>)
    requires
        is_binary(model(*c)),
    ensures
        r == binary(model(*c), a, b),
{
    match c {
        Command::OpAdd => match a.checked_add(b) {
            Some(v) => Ok(v),
            None => Err(RunError::Overflow),
        },
        Command::OpSub => match b.checked_sub(a) {
            Some(v) => Ok(v),
            None => Err(RunError::Overflow),
        },
        Command::OpMul => match a.checked_mul(b) {
            Some(v) => Ok(v),
            None => Err(RunError::Overflow),
        },
        Command::OpDiv => if a == 0 {
            Err(RunError::DivisionByZero)
        } else {
            match b.checked_div(a) {
                Some(v) => Ok(v),
                None => Err(RunError::Overflow),
            }
        },
        Command::OpMod => if a == 0 {
            Err(RunError::DivisionByZero)
        } else if a == -1 {
            Ok(0)
        } else {
            match b.checked_rem(a) {
                Some(v) => Ok(v),
                None => Err(RunError::Overflow),
            }
        },
        Command::OpEq => Ok(if a == b { 1 } else { 0 }),
        Command::OpNeq => Ok(if a != b { 1 } else { 0 }),
        Command::OpGt => Ok(if a < b { 1 } else { 0 }),
        Command::OpLt => Ok(if a > b { 1 } else { 0 }),
        Command::OpGte => Ok(if b <= a { 1 } else { 0 }),
        _ => Ok(if b >= a { 1 } else { 0 }),
    }
}


pub proof fn lemma_models_index(s: Seq<Command>, i: int)
    requires
        0 <= i < s.len(),
    ensures
        models(s).len() == s.len(),
        models(s)[i] == model(s[i]),
    decreases s.len(),
{
    crate::command::lemma_models_len(s);
    if i < s.len() - 1 {
        lemma_models_index(s.drop_last(), i);
    }
}

impl Interpreter {
    /// Each name is bound at most once in the store and in the table.
    pub open spec fn wf(&self) -> bool {
        names_unique(self@.vars) && names_unique(self@.fns)
    }

    /// A context with an empty stack, store, function table and output.
    pub fn new() -> (r: Interpreter)
        ensures
            r@ == empty_machine(),
            r.wf(),
    {
        let r = Interpreter { stack: Vec::new(), heap: Vec::new(), fn_stack: Vec::new(), output: Vec::new() };
        assert(vars_view(r.heap@) =~= seq![]);
        assert(fns_view(r.fn_stack@) =~= seq![]);
        assert(out_view(r.output@) =~= seq![]);
        r
    }

    /// The operand stack, top last.
    pub fn stack(&self) -> (r: &Vec<i32>)
        ensures
            r@ == self@.stack,
    {
        &self.stack
    }

    /// What the run has emitted so far.
    pub fn output(&self) -> (r: &Vec<Output>)
        ensures
            out_view(r@) == self@.out,
    {
        &self.output
    }

    fn find_var(&self, k: &String) -> (r: Option<usize>)
        ensures
            match r {
                Some(j) => slot(self@.vars, k@) == j as int && j < self.heap@.len(),
                None => slot(self@.vars, k@) == -1,
            },
    {
        let ghost vs = self@.vars;
        let mut j: usize = 0;
        while j < self.heap.len()
            invariant
                j <= self.heap@.len(),
                vs == vars_view(self.heap@),
                slot(vs, k@) == slot_from(vs, k@, j as int),
            decreases self.heap@.len() - j,
        {
            if self.heap[j].0 == *k {
                return Some(j);
            }
            j = j + 1;
        }
        None
    }

    /// The value bound to `name` in the store.
    pub fn variable(&self, name: &String) -> (r: Option<i32>)
        ensures
            r == lookup(self@.vars, name@),
    {
        match self.find_var(name) {
            Some(j) => Some(self.heap[j].1),
            None => None,
        }
    }

    fn set_var(&mut self, k: &String, v: i32)
        requires
            old(self).wf(),
        ensures
            final(self)@ == with_vars(old(self)@, assign(old(self)@.vars, k@, v)),
            final(self).wf(),
    {
        proof {
            lemma_assign_unique(self@.vars, k@, v);
        }
        let ghost vs = self@.vars;
        match self.find_var(k) {
            Some(j) => {
                self.heap.set(j, (k.clone(), v));
                assert(vars_view(self.heap@) =~= vs.update(j as int, (k@, v)));
            },
            None => {
                self.heap.push((k.clone(), v));
                assert(vars_view(self.heap@) =~= vs.push((k@, v)));
            },
        }
    }

    fn find_fn(&self, k: &String) -> (r: Option<usize>)
        ensures
            match r {
                Some(j) => slot(self@.fns, k@) == j as int && j < self.fn_stack@.len(),
                None => slot(self@.fns, k@) == -1,
            },
    {
        let ghost fs = self@.fns;
        let mut j: usize = 0;
        while j < self.fn_stack.len()
            invariant
                j <= self.fn_stack@.len(),
                fs == fns_view(self.fn_stack@),
                slot(fs, k@) == slot_from(fs, k@, j as int),
            decreases self.fn_stack@.len() - j,
        {
            if self.fn_stack[j].name == *k {
                return Some(j);
            }
            j = j + 1;
        }
        None
    }

    fn exec_binary(&mut self, c: &Command) -> (r: Result<(), RunError>)
        requires
            old(self).wf(),
            is_binary(model(*c)),
        ensures
            final(self).wf(),
            (final(self)@, err_of(r)) == eval_cmd(model(*c), old(self)@, 0),
    {
        let n = self.stack.len();
        if n < 2 {
            return Err(RunError::StackUnderflow);
        }
        let a = self.stack[n - 1];
        let b = self.stack[n - 2];
        match apply_binary(c, a, b) {
            Err(e) => Err(e),
            Ok(v) => {
                let ghost s = self.stack@;
                self.stack.pop();
                self.stack.pop();
                self.stack.push(v);
                assert(self.stack@ =~= s.subrange(0, n - 2).push(v));
                Ok(())
            },
        }
    }

    fn exec_seq(&mut self, cs: &Vec<Command>, depth: u64) -> (r: Result<(), RunError>)
        requires
            old(self).wf(),
        ensures
            final(self).wf(),
            (final(self)@, err_of(r)) == eval_seq(models(cs@), old(self)@, depth as nat),
        decreases depth, 2int,
    {
        let ghost ms = models(cs@);
        let ghost m0 = self@;
        let ghost total = eval_seq(ms, m0, depth as nat);
        proof {
            crate::command::lemma_models_len(cs@);
        }
        let mut i: usize = 0;
        assert(ms.subrange(0, ms.len() as int) =~= ms);
        while i < cs.len()
            invariant
                i <= cs@.len(),
                ms == models(cs@),
                ms.len() == cs@.len(),
                total == eval_seq(ms, m0, depth as nat),
                self.wf(),
                m0 == old(self)@,
                total == eval_seq(ms.subrange(i as int, ms.len() as int), self@, depth as nat),
            decreases cs@.len() - i,
        {
            proof {
                lemma_models_index(cs@, i as int);
                assert(ms.subrange(i as int, ms.len() as int).drop_first() =~= ms.subrange(
                    i + 1,
                    ms.len() as int,
                ));
            }
            let r = self.exec_cmd(&cs[i], depth);
            if r.is_err() {
                return r;
            }
            i = i + 1;
        }
        Ok(())
    }

    fn exec_loop(&mut self, var: &String, n: i32, body: &Vec<Command>, depth: u64) -> (r: Result<(), RunError>)
        requires
            old(self).wf(),
        ensures
            final(self).wf(),
            (final(self)@, err_of(r)) == eval_loop(var@, 0, n as int, models(body@), old(self)@, depth as nat),
        decreases depth, 0int,
    {
        let ghost m0 = self@;
        let ghost total = eval_loop(var@, 0, n as int, models(body@), m0, depth as nat);
        let mut i: i32 = 0;
        while i < n
            invariant
                0 <= i,
                total == eval_loop(var@, 0, n as int, models(body@), m0, depth as nat),
                self.wf(),
                m0 == old(self)@,
                total == eval_loop(var@, i as int, n as int, models(body@), self@, depth as nat),
            decreases n - i,
        {
            if depth == 0 {
                return Err(RunError::TooDeep);
            }
            self.set_var(var, i);
            let r = self.exec_seq(body, depth - 1);
            if r.is_err() {
                return r;
            }
            i = i + 1;
        }
        Ok(())
    }

    fn exec_call(&mut self, k: &String, depth: u64) -> (r: Result<(), RunError>)
        requires
            old(self).wf(),
        ensures
            final(self).wf(),
            (final(self)@, err_of(r)) == eval_cmd(Cmd::Call(k@), old(self)@, depth as nat),
        decreases depth, 0int,
    {
        let ghost m0 = self@;
        match self.find_fn(k) {
            None => {
                let ghost o = self@.out;
                self.output.push(Output::MissingFunction(k.clone()));
                assert(out_view(self.output@) =~= o.push(Event::MissingFunction(k@)));
                Ok(())
            },
            Some(j) => {
                let ps = copy_names(&self.fn_stack[j].params);
                let body = copy_commands(&self.fn_stack[j].body);
                let np = ps.len();
                let n = self.stack.len();
                proof {
                    assert(names_model(ps@).len() == ps@.len());
                }
                if n < np {
                    return Err(RunError::StackUnderflow);
                }
                if depth == 0 {
                    return Err(RunError::TooDeep);
                }
                let ghost pm = names_model(ps@);
                let ghost s0 = self.stack@;
                let mut t: usize = 0;
                assert(pm.subrange(0, pm.len() as int) =~= pm);
                while t < np
                    invariant
                        t <= np == ps@.len() == pm.len(),
                        np <= n == s0.len(),
                        pm == names_model(ps@),
                        self.stack@ == s0.subrange(0, n - t),
                        self@.fns == m0.fns,
                        self@.out == m0.out,
                        self.wf(),
                        bind_params(m0.vars, s0, pm) == bind_params(
                            self@.vars,
                            self.stack@,
                            pm.subrange(t as int, pm.len() as int),
                        ),
                    decreases np - t,
                {
                    let ghost st = self.stack@;
                    let v = self.stack.pop().unwrap();
                    self.set_var(&ps[t], v);
                    proof {
                        assert(pm.subrange(t as int, pm.len() as int).drop_first() =~= pm.subrange(
                            t + 1,
                            pm.len() as int,
                        ));
                        assert(self.stack@ =~= s0.subrange(0, n - t - 1));
                    }
                    t = t + 1;
                }
                assert(self@ == Machine {
                    stack: s0.subrange(0, n - np),
                    vars: bind_params(m0.vars, s0, pm),
                    ..m0
                });
                self.exec_seq(&body, depth - 1)
            },
        }
    }

    fn exec_cmd(&mut self, c: &Command, depth: u64) -> (r: Result<(), RunError>)
        requires
            old(self).wf(),
        ensures
            final(self).wf(),
            (final(self)@, err_of(r)) == eval_cmd(model(*c), old(self)@, depth as nat),
        decreases depth, 1int,
    {
        let ghost m0 = self@;
        match c {
            Command::OpPush(v) => {
                self.stack.push(*v);
                Ok(())
            },
            Command::OpDump => {
                match self.stack.pop() {
                    None => Err(RunError::StackUnderflow),
                    Some(v) => {
                        let ghost o = self@.out;
                        self.output.push(Output::Value(v));
                        assert(out_view(self.output@) =~= o.push(Event::Value(v)));
                        Ok(())
                    },
                }
            },
            Command::OpIdent(k) => {
                match self.find_var(k) {
                    Some(j) => {
                        let v = self.heap[j].1;
                        self.stack.push(v);
                        Ok(())
                    },
                    None => {
                        match self.stack.pop() {
                            None => Err(RunError::StackUnderflow),
                            Some(v) => {
                                self.set_var(k, v);
                                Ok(())
                            },
                        }
                    },
                }
            },
            Command::OpEnd => {
                self.stack.clear();
                Ok(())
            },
            Command::OpDel(k) => {
                let ghost vs = self@.vars;
                proof {
                    lemma_unbind_unique(vs, k@);
                }
                match self.find_var(k) {
                    Some(j) => {
                        self.heap.remove(j);
                        assert(vars_view(self.heap@) =~= vs.remove(j as int));
                    },
                    None => {},
                }
                Ok(())
            },
            Command::CfIf(body) => {
                let n = self.stack.len();
                if n < 1 {
                    return Err(RunError::StackUnderflow);
                }
                if self.stack[n - 1] == 1 {
                    if depth == 0 {
                        return Err(RunError::TooDeep);
                    }
                    self.stack.pop();
                    let r = self.exec_seq(body, depth - 1);
                    if r.is_err() {
                        return r;
                    }
                    self.stack.clear();
                    self.stack.push(1);
                    assert(self.stack@ =~= seq![1i32]);
                } else {
                    self.stack.pop();
                    self.stack.push(0);
                }
                Ok(())
            },
            Command::CfElse(body) => {
                let n = self.stack.len();
                if n < 1 {
                    return Err(RunError::StackUnderflow);
                }
                if self.stack[n - 1] == 0 {
                    if depth == 0 {
                        return Err(RunError::TooDeep);
                    }
                    self.stack.pop();
                    let r = self.exec_seq(body, depth - 1);
                    if r.is_err() {
                        return r;
                    }
                    self.stack.clear();
                } else {
                    self.stack.pop();
                }
                Ok(())
            },
            Command::CfDFn(k, ps, body) => {
                let d = FnDef { name: k.clone(), params: copy_names(ps), body: copy_commands(body) };
                let ghost fs = self@.fns;
                proof {
                    lemma_assign_unique(fs, k@, fn_view(d).1);
                }
                match self.find_fn(k) {
                    Some(j) => {
                        self.fn_stack.set(j, d);
                        assert(fns_view(self.fn_stack@) =~= fs.update(j as int, fn_view(d)));
                    },
                    None => {
                        self.fn_stack.push(d);
                        assert(fns_view(self.fn_stack@) =~= fs.push(fn_view(d)));
                    },
                }
                Ok(())
            },
            Command::CfCall(k) => self.exec_call(k, depth),
            Command::CfFor(var, bound, body) => {
                match bound {
                    Some(n) => self.exec_loop(var, *n, body, depth),
                    None => {
                        match self.stack.pop() {
                            None => Err(RunError::StackUnderflow),
                            Some(n) => self.exec_loop(var, n, body, depth),
                        }
                    },
                }
            },
            _ => {
                let r = self.exec_binary(c);
                r
            },
        }
    }

    /// Runs a program: its commands in order, until the first error.
    pub fn run(&mut self, program: Vec<Command>) -> (r: Result<(), RunError>)
        requires
            old(self).wf(),
        ensures
            final(self).wf(),
            (final(self)@, err_of(r)) == eval_seq(models(program@), old(self)@, MAX_DEPTH as nat),
    {
        self.exec_seq(&program, MAX_DEPTH)
    }
}

} // verus!
