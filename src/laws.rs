use vstd::prelude::*;
use crate::command::Cmd;
use crate::parser::{
    Toks, parse_span, parse_spec, block_end, matching_end, lemma_matching_end, idents_end, past_block,
    is_opener,
};
use crate::scanner::{
    TokenKind, is_blank, is_digit, is_letter, digits_end, letters_end, lex_at, next_is, scan_from,
    scan_spec, lemma_digits_end, lemma_letters_end,
};
use crate::machine::{
    bind_params, eval_loop,
    Machine, RunError, Event, eval_seq, eval_cmd, binary, is_binary, flag, lookup, assign,
    unbind, slot, slot_from, with_stack, with_vars, lemma_slot_from,
};

verus! {

proof fn lemma_slot_push<V>(s: Seq<(Seq<char>, V)>, k: Seq<char>, v: V, i: int)
    requires
        0 <= i <= s.len(),
        slot_from(s, k, i) == -1,
    ensures
        slot_from(s.push((k, v)), k, i) == s.len(),
    decreases s.len() - i,
{
    if i < s.len() {
        lemma_slot_push(s, k, v, i + 1);
    }
}

/// After binding `k` to `v`, looking `k` up gives `v`.
pub proof fn lemma_lookup_assign<V>(s: Seq<(Seq<char>, V)>, k: Seq<char>, v: V)
    ensures
        lookup(assign(s, k, v), k) == Some(v),
{
    lemma_slot_from(s, k, 0);
    if slot(s, k) >= 0 {
        let j = slot(s, k);
        lemma_slot_same_prefix(s, s.update(j, (k, v)), k, 0, j);
    } else {
        lemma_slot_push(s, k, v, 0);
    }
}

proof fn lemma_slot_same_prefix<V>(s: Seq<(Seq<char>, V)>, t: Seq<(Seq<char>, V)>, k: Seq<char>, i: int, j: int)
    requires
        0 <= i <= j < s.len() == t.len(),
        slot_from(s, k, i) == j,
        t[j].0 == k,
        forall|x: int| 0 <= x < j ==> (#[trigger] t[x]).0 == s[x].0,
    ensures
        slot_from(t, k, i) == j,
    decreases j - i,
{
    if i < j {
        lemma_slot_same_prefix(s, t, k, i + 1, j);
    }
}

pub open spec fn three(x: i32, y: i32, c: Cmd) -> Seq<Cmd> {
    seq![Cmd::Push(x), Cmd::Push(y), c]
}

/// Evaluating `x y op` for a binary operator pops `y` first and `x` second,
/// and pushes the operator's result on the two as the pop-order table gives
/// it; where the table gives an error, the run stops with both values pushed.
pub proof fn law_binary_sequence(x: i32, y: i32, c: Cmd, m: Machine, depth: nat)
    requires
        is_binary(c),
    ensures
        eval_seq(three(x, y, c), m, depth) == match binary(c, y, x) {
            Ok(v) => (with_stack(m, m.stack.push(v)), None::<RunError>),
            Err(e) => (with_stack(m, m.stack.push(x).push(y)), Some(e)),
        },
{
    let cs = three(x, y, c);
    assert(cs.drop_first() =~= seq![Cmd::Push(y), c]);
    assert(cs.drop_first().drop_first() =~= seq![c]);
    assert(cs.drop_first().drop_first().drop_first() =~= Seq::<Cmd>::empty());
    let s = m.stack.push(x).push(y);
    assert(s[s.len() - 1] == y);
    assert(s[s.len() - 2] == x);
    assert(s.subrange(0, s.len() - 2) =~= m.stack);
    let m1 = with_stack(m, m.stack.push(x));
    let m2 = with_stack(m, s);
    assert(eval_cmd(Cmd::Push(x), m, depth) == (m1, None::<RunError>));
    assert(eval_cmd(Cmd::Push(y), m1, depth) == (m2, None::<RunError>));
    assert(cs[0] == Cmd::Push(x));
    assert(cs.drop_first()[0] == Cmd::Push(y));
    assert(cs.drop_first().drop_first()[0] == c);
    assert(eval_seq(cs, m, depth) == eval_seq(cs.drop_first(), m1, depth));
    assert(eval_seq(cs.drop_first(), m1, depth) == eval_seq(cs.drop_first().drop_first(), m2, depth));
    let last = eval_cmd(c, m2, depth);
    assert(eval_seq(cs.drop_first().drop_first(), m2, depth) == last) by {
        if last.1 is None {
            assert(eval_seq(cs.drop_first().drop_first().drop_first(), last.0, depth) == (last.0, None::<RunError>));
        }
    }
    match binary(c, y, x) {
        Ok(v) => {
            assert(last == (with_stack(m, m.stack.push(v)), None::<RunError>));
        },
        Err(e) => {
            assert(last == (m2, Some(e)));
        },
    }
}

/// `x y -` pushes `x - y`: the value pushed second is taken from the one
/// pushed first.
pub proof fn law_subtract_order(x: i32, y: i32, m: Machine, depth: nat)
    requires
        i32::MIN <= x - y <= i32::MAX,
    ensures
        eval_seq(three(x, y, Cmd::Sub), m, depth) == (
            with_stack(m, m.stack.push((x - y) as i32)),
            None::<RunError>,
        ),
{
    law_binary_sequence(x, y, Cmd::Sub, m, depth);
}

/// `x y >` pushes 1 exactly when `y < x`, and 0 otherwise.
pub proof fn law_greater_than(x: i32, y: i32, m: Machine, depth: nat)
    ensures
        eval_seq(three(x, y, Cmd::Gt), m, depth) == (
            with_stack(m, m.stack.push(flag(y < x))),
            None::<RunError>,
        ),
{
    law_binary_sequence(x, y, Cmd::Gt, m, depth);
}

/// The first use of a name that is not bound, with nothing on the stack,
/// stops the run with a stack underflow.
pub proof fn law_unbound_name_underflows(k: Seq<char>, m: Machine, depth: nat)
    requires
        lookup(m.vars, k) is None,
        m.stack.len() == 0,
    ensures
        eval_seq(seq![Cmd::Ident(k)], m, depth) == (m, Some(RunError::StackUnderflow)),
{
    let cs = seq![Cmd::Ident(k)];
    assert(cs[0] == Cmd::Ident(k));
    assert(eval_cmd(Cmd::Ident(k), m, depth) == (m, Some(RunError::StackUnderflow)));
}

/// `v k k $` on an unbound name `k`: the first `k` binds the value, the
/// second reads it back, and `$` prints it.
pub proof fn law_bind_then_read(v: i32, k: Seq<char>, m: Machine, depth: nat)
    requires
        lookup(m.vars, k) is None,
    ensures
        eval_seq(seq![Cmd::Push(v), Cmd::Ident(k), Cmd::Ident(k), Cmd::Dump], m, depth) == (
            Machine { vars: assign(m.vars, k, v), out: m.out.push(Event::Value(v)), ..m },
            None::<RunError>,
        ),
{
    let cs = seq![Cmd::Push(v), Cmd::Ident(k), Cmd::Ident(k), Cmd::Dump];
    assert(cs.drop_first() =~= seq![Cmd::Ident(k), Cmd::Ident(k), Cmd::Dump]);
    assert(cs.drop_first().drop_first() =~= seq![Cmd::Ident(k), Cmd::Dump]);
    assert(cs.drop_first().drop_first().drop_first() =~= seq![Cmd::Dump]);
    assert(cs.drop_first().drop_first().drop_first().drop_first() =~= Seq::<Cmd>::empty());
    let m1 = with_stack(m, m.stack.push(v));
    assert(m1.stack.drop_last() =~= m.stack);
    let m2 = Machine { vars: assign(m.vars, k, v), ..m };
    assert(eval_cmd(Cmd::Ident(k), m1, depth) == (m2, None::<RunError>));
    lemma_lookup_assign(m.vars, k, v);
    let m3 = with_stack(m2, m.stack.push(v));
    assert(eval_cmd(Cmd::Ident(k), m2, depth) == (m3, None::<RunError>));
    assert(m3.stack.drop_last() =~= m.stack);
    let m4 = Machine { vars: assign(m.vars, k, v), out: m.out.push(Event::Value(v)), ..m };
    assert(eval_cmd(Cmd::Dump, m3, depth) == (m4, None::<RunError>));
    assert(cs[0] == Cmd::Push(v));
    assert(cs.drop_first()[0] == Cmd::Ident(k));
    assert(cs.drop_first().drop_first()[0] == Cmd::Ident(k));
    assert(cs.drop_first().drop_first().drop_first()[0] == Cmd::Dump);
    assert(eval_seq(cs.drop_first().drop_first().drop_first().drop_first(), m4, depth) == (m4, None::<RunError>));
    assert(eval_seq(cs.drop_first().drop_first().drop_first(), m3, depth) == (m4, None::<RunError>));
    assert(eval_seq(cs.drop_first().drop_first(), m2, depth) == (m4, None::<RunError>));
    assert(eval_seq(cs.drop_first(), m1, depth) == (m4, None::<RunError>));
    assert(eval_cmd(Cmd::Push(v), m, depth) == (m1, None::<RunError>));
    assert(eval_seq(cs, m, depth) == (m4, None::<RunError>));
}

/// A true (1) condition runs the body on the rest of the stack; when the body
/// finishes, the stack holds a single 1 whatever the body left.
pub proof fn law_if_true(body: Seq<Cmd>, m: Machine, depth: nat)
    requires
        m.stack.len() > 0,
        m.stack.last() == 1,
        depth > 0,
        eval_seq(body, with_stack(m, m.stack.drop_last()), (depth - 1) as nat).1 is None,
    ensures
        eval_cmd(Cmd::If(body), m, depth) == (
            with_stack(eval_seq(body, with_stack(m, m.stack.drop_last()), (depth - 1) as nat).0, seq![1i32]),
            None::<RunError>,
        ),
{
}

/// A false (0) condition skips the body and leaves a 0 in its place.
pub proof fn law_if_false(body: Seq<Cmd>, m: Machine, depth: nat)
    requires
        m.stack.len() > 0,
        m.stack.last() == 0,
    ensures
        eval_cmd(Cmd::If(body), m, depth) == (with_stack(m, m.stack.drop_last().push(0)), None::<RunError>),
{
}

/// A call of a name with no function leaves a note in the output and the
/// run goes on with the state otherwise unchanged.
pub proof fn law_missing_function_continues(k: Seq<char>, rest: Seq<Cmd>, m: Machine, depth: nat)
    requires
        lookup(m.fns, k) is None,
    ensures
        eval_seq(seq![Cmd::Call(k)] + rest, m, depth) == eval_seq(
            rest,
            Machine { out: m.out.push(Event::MissingFunction(k)), ..m },
            depth,
        ),
{
    let cs = seq![Cmd::Call(k)] + rest;
    assert(cs.drop_first() =~= rest);
    assert(cs[0] == Cmd::Call(k));
    let m1 = Machine { out: m.out.push(Event::MissingFunction(k)), ..m };
    assert(eval_cmd(Cmd::Call(k), m, depth) == (m1, None::<RunError>));
}

/// Deleting a name that is not bound changes nothing and is no error.
pub proof fn law_delete_unbound(k: Seq<char>, m: Machine, depth: nat)
    requires
        lookup(m.vars, k) is None,
    ensures
        eval_cmd(Cmd::Del(k), m, depth) == (m, None::<RunError>),
{
    assert(unbind(m.vars, k) == m.vars);
    assert(with_vars(m, m.vars) == m);
}


proof fn lemma_slot_same_keys<V>(s: Seq<(Seq<char>, V)>, t: Seq<(Seq<char>, V)>, k: Seq<char>, i: int)
    requires
        0 <= i,
        s.len() == t.len(),
        forall|x: int| 0 <= x < s.len() ==> (#[trigger] t[x]).0 == s[x].0,
    ensures
        slot_from(t, k, i) == slot_from(s, k, i),
    decreases s.len() - i,
{
    if i < s.len() {
        lemma_slot_same_keys(s, t, k, i + 1);
    }
}

proof fn lemma_slot_push_other<V>(s: Seq<(Seq<char>, V)>, k: Seq<char>, v: V, k2: Seq<char>, i: int)
    requires
        0 <= i <= s.len(),
        k2 != k,
    ensures
        slot_from(s.push((k, v)), k2, i) == slot_from(s, k2, i),
    decreases s.len() - i,
{
    let t = s.push((k, v));
    if i < s.len() {
        lemma_slot_push_other(s, k, v, k2, i + 1);
        assert(t[i] == s[i]);
    } else {
        assert(t[i].0 == k);
        assert(slot_from(t, k2, i + 1) == -1);
    }
}

/// Binding `k` leaves what every other name is bound to.
pub proof fn lemma_lookup_assign_other<V>(s: Seq<(Seq<char>, V)>, k: Seq<char>, v: V, k2: Seq<char>)
    requires
        k2 != k,
    ensures
        lookup(assign(s, k, v), k2) == lookup(s, k2),
{
    lemma_slot_from(s, k, 0);
    lemma_slot_from(s, k2, 0);
    if slot(s, k) >= 0 {
        lemma_slot_same_keys(s, s.update(slot(s, k), (k, v)), k2, 0);
    } else {
        lemma_slot_push_other(s, k, v, k2, 0);
    }
}

proof fn lemma_bind_params_other(vs: Seq<(Seq<char>, i32)>, s: Seq<i32>, ps: Seq<Seq<char>>, k: Seq<char>)
    requires
        !ps.contains(k),
    ensures
        lookup(bind_params(vs, s, ps), k) == lookup(vs, k),
    decreases ps.len(),
{
    if ps.len() > 0 && s.len() > 0 {
        assert(ps[0] != k);
        lemma_lookup_assign_other(vs, ps[0], s.last(), k);
        assert forall|x: int| 0 <= x < ps.drop_first().len() implies ps.drop_first()[x] != k by {
            assert(ps.drop_first()[x] == ps[x + 1]);
        }
        lemma_bind_params_other(assign(vs, ps[0], s.last()), s.drop_last(), ps.drop_first(), k);
    }
}

/// With distinct parameter names, the parameter declared `j`-th is bound to
/// the `j`-th value popped off the stack.
pub proof fn lemma_bind_params_lookup(vs: Seq<(Seq<char>, i32)>, s: Seq<i32>, ps: Seq<Seq<char>>, j: int)
    requires
        ps.no_duplicates(),
        ps.len() <= s.len(),
        0 <= j < ps.len(),
    ensures
        lookup(bind_params(vs, s, ps), ps[j]) == Some(s[s.len() - 1 - j]),
    decreases ps.len(),
{
    let vs1 = assign(vs, ps[0], s.last());
    let rest = ps.drop_first();
    assert(rest.no_duplicates()) by {
        assert forall|x: int, y: int| 0 <= x < rest.len() && 0 <= y < rest.len() && x != y implies rest[x] != rest[y] by {
            assert(rest[x] == ps[x + 1] && rest[y] == ps[y + 1]);
        }
    }
    if j == 0 {
        assert(!rest.contains(ps[0])) by {
            if rest.contains(ps[0]) {
                let x = choose|x: int| 0 <= x < rest.len() && rest[x] == ps[0];
                assert(rest[x] == ps[x + 1]);
            }
        }
        lemma_bind_params_other(vs1, s.drop_last(), rest, ps[0]);
        lemma_lookup_assign(vs, ps[0], s.last());
    } else {
        assert(rest[j - 1] == ps[j]);
        lemma_bind_params_lookup(vs1, s.drop_last(), rest, j - 1);
    }
}

/// Defining a function and then calling it runs its body with one value
/// popped per declared parameter, the parameters bound to those values.
pub proof fn law_define_then_call(
    k: Seq<char>,
    ps: Seq<Seq<char>>,
    body: Seq<Cmd>,
    m: Machine,
    depth: nat,
)
    requires
        m.stack.len() >= ps.len(),
        depth > 0,
    ensures
        eval_seq(seq![Cmd::DefFn(k, ps, body), Cmd::Call(k)], m, depth) == eval_seq(
            body,
            Machine {
                stack: m.stack.subrange(0, m.stack.len() - ps.len()),
                vars: bind_params(m.vars, m.stack, ps),
                fns: assign(m.fns, k, (ps, body)),
                out: m.out,
            },
            (depth - 1) as nat,
        ),
{
    let cs = seq![Cmd::DefFn(k, ps, body), Cmd::Call(k)];
    let m1 = Machine { fns: assign(m.fns, k, (ps, body)), ..m };
    lemma_lookup_assign(m.fns, k, (ps, body));
    assert(cs[0] == Cmd::DefFn(k, ps, body));
    assert(cs.drop_first() =~= seq![Cmd::Call(k)]);
    assert(cs.drop_first()[0] == Cmd::Call(k));
    assert(cs.drop_first().drop_first() =~= Seq::<Cmd>::empty());
    assert(eval_cmd(Cmd::DefFn(k, ps, body), m, depth) == (m1, None::<RunError>));
    let r = eval_cmd(Cmd::Call(k), m1, depth);
    assert(eval_seq(cs.drop_first(), m1, depth) == r) by {
        if r.1 is None {
            assert(eval_seq(cs.drop_first().drop_first(), r.0, depth) == r);
        }
    }
}

pub open spec fn print_var(var: Seq<char>) -> Seq<Cmd> {
    seq![Cmd::Ident(var), Cmd::Dump]
}

pub open spec fn counted(i: int, n: int) -> Seq<Event> {
    Seq::new((n - i) as nat, |j: int| Event::Value((i + j) as i32))
}

proof fn lemma_loop_prints(var: Seq<char>, i: int, n: i32, m: Machine, depth: nat)
    requires
        0 <= i < n,
        depth > 0,
    ensures
        eval_loop(var, i, n as int, print_var(var), m, depth).1 is None,
        eval_loop(var, i, n as int, print_var(var), m, depth).0.stack == m.stack,
        eval_loop(var, i, n as int, print_var(var), m, depth).0.out == m.out + counted(i, n as int),
        lookup(eval_loop(var, i, n as int, print_var(var), m, depth).0.vars, var) == Some((n - 1) as i32),
    decreases n - i,
{
    let body = print_var(var);
    let vs = assign(m.vars, var, i as i32);
    let ma = with_vars(m, vs);
    lemma_lookup_assign(m.vars, var, i as i32);
    let mb = with_stack(ma, m.stack.push(i as i32));
    assert(eval_cmd(Cmd::Ident(var), ma, (depth - 1) as nat) == (mb, None::<RunError>));
    assert(mb.stack.drop_last() =~= m.stack);
    let mc = Machine { out: m.out.push(Event::Value(i as i32)), ..ma };
    assert(eval_cmd(Cmd::Dump, mb, (depth - 1) as nat) == (mc, None::<RunError>));
    assert(body[0] == Cmd::Ident(var));
    assert(body.drop_first() =~= seq![Cmd::Dump]);
    assert(body.drop_first()[0] == Cmd::Dump);
    assert(body.drop_first().drop_first() =~= Seq::<Cmd>::empty());
    assert(eval_seq(body.drop_first().drop_first(), mc, (depth - 1) as nat) == (mc, None::<RunError>));
    assert(eval_seq(body.drop_first(), mb, (depth - 1) as nat) == (mc, None::<RunError>));
    assert(eval_seq(body, ma, (depth - 1) as nat) == (mc, None::<RunError>));
    if i + 1 < n {
        lemma_loop_prints(var, i + 1, n, mc, depth);
        assert(m.out.push(Event::Value(i as i32)) + counted(i + 1, n as int) =~= m.out + counted(i, n as int));
    } else {
        assert(m.out.push(Event::Value(i as i32)) =~= m.out + counted(i, n as int));
    }
}

/// `for var in n var $ end` with `n > 0` runs the body `n` times with `var`
/// bound to 0, 1, ..., n - 1 in turn, printing each, and `var` keeps its last
/// value, n - 1, after the loop.
pub proof fn law_counted_loop(var: Seq<char>, n: i32, m: Machine, depth: nat)
    requires
        n > 0,
        depth > 0,
    ensures
        eval_cmd(Cmd::For(var, Some(n), print_var(var)), m, depth).1 is None,
        eval_cmd(Cmd::For(var, Some(n), print_var(var)), m, depth).0.stack == m.stack,
        eval_cmd(Cmd::For(var, Some(n), print_var(var)), m, depth).0.out == m.out + counted(0, n as int),
        lookup(eval_cmd(Cmd::For(var, Some(n), print_var(var)), m, depth).0.vars, var) == Some((n - 1) as i32),
{
    lemma_loop_prints(var, 0, n, m, depth);
}


proof fn lemma_digits_run(u: Seq<char>, i: int, j: int)
    requires
        0 <= i <= j < u.len(),
        forall|x: int| i <= x < j ==> is_digit(#[trigger] u[x]),
        !is_digit(u[j]),
    ensures
        digits_end(u, i) == j,
    decreases j - i,
{
    if i < j {
        lemma_digits_run(u, i + 1, j);
    }
}

proof fn lemma_letters_run(u: Seq<char>, i: int, j: int)
    requires
        0 <= i <= j < u.len(),
        forall|x: int| i <= x < j ==> is_letter(#[trigger] u[x]),
        !is_letter(u[j]),
    ensures
        letters_end(u, i) == j,
    decreases j - i,
{
    if i < j {
        lemma_letters_run(u, i + 1, j);
    }
}

/// The token that `lex_at` finds at `p` in `s` is found again, with the same
/// kind and extent, wherever its text stands followed by a blank.
proof fn lemma_relex(s: Seq<char>, p: int, u: Seq<char>, q: int)
    requires
        0 <= p < s.len(),
        lex_at(s, p) is Some,
        p < lexed_end(s, p) <= s.len(),
        0 <= q,
        q + (lexed_end(s, p) - p) < u.len(),
        u.subrange(q, q + (lexed_end(s, p) - p)) == s.subrange(p, lexed_end(s, p)),
        u[q + (lexed_end(s, p) - p)] == ' ',
    ensures
        lex_at(u, q) == Some((lexed_kind(s, p), q + (lexed_end(s, p) - p))),
{
    let (k, e) = lex_at(s, p)->0;
    let l = e - p;
    let us = u.subrange(q, q + l);
    let ss = s.subrange(p, e);
    assert(us[0] == ss[0]);
    let c = s[p];
    if is_digit(c) {
        lemma_digits_end(s, p);
        assert forall|x: int| q <= x < q + l implies is_digit(#[trigger] u[x]) by {
            assert(us[x - q] == ss[x - q]);
        }
        lemma_digits_run(u, q, q + l);
    } else if is_letter(c) {
        lemma_letters_end(s, p);
        let r = letters_end(s, p);
        assert forall|x: int| q <= x < q + (r - p) implies is_letter(#[trigger] u[x]) by {
            assert(us[x - q] == ss[x - q]);
        }
        if next_is(s, r, '(') && next_is(s, r + 1, ')') {
            assert(us[r - p] == ss[r - p]);
            assert(us[r - p + 1] == ss[r - p + 1]);
            lemma_letters_run(u, q, q + (r - p));
        } else {
            lemma_letters_run(u, q, q + (r - p));
            assert(u.subrange(q, q + l) =~= s.subrange(p, e));
        }
    } else if c == '=' || c == '!' {
        assert(us[1] == ss[1]);
    } else if c == '>' || c == '<' {
        if next_is(s, p + 1, '=') {
            assert(us[1] == ss[1]);
        }
    }
}

pub open spec fn text_of(t: (TokenKind, Seq<char>)) -> Seq<char> {
    t.1
}

pub open spec fn lexed_kind(s: Seq<char>, p: int) -> TokenKind {
    match lex_at(s, p) {
        Some((k, _)) => k,
        None => TokenKind::Number,
    }
}

pub open spec fn lexed_end(s: Seq<char>, p: int) -> int {
    match lex_at(s, p) {
        Some((_, e)) => e,
        None => p,
    }
}

/// Token texts, each followed by one blank.
pub open spec fn spaced(ts: Seq<(TokenKind, Seq<char>)>) -> Seq<char>
    decreases ts.len(),
{
    if ts.len() == 0 {
        seq![]
    } else {
        text_of(ts[0]) + seq![' '] + spaced(ts.drop_first())
    }
}

/// A token whose text is found again, as the same kind, wherever it stands
/// followed by a blank.
pub open spec fn relexes(t: (TokenKind, Seq<char>)) -> bool {
    &&& text_of(t).len() > 0
    &&& !is_blank(text_of(t)[0])
    &&& forall|u: Seq<char>, q: int|
        0 <= q && q + text_of(t).len() < u.len() && u.subrange(q, q + text_of(t).len()) == text_of(t) && u[q
            + text_of(t).len()] == ' ' ==> #[trigger] lex_at(u, q) == Some((t.0, q + text_of(t).len()))
}

proof fn lemma_scanned_relex(s: Seq<char>, p: int)
    requires
        0 <= p,
        scan_from(s, p) is Ok,
    ensures
        forall|i: int| 0 <= i < scan_from(s, p)->Ok_0.len() ==> relexes(#[trigger] scan_from(s, p)->Ok_0[i]),
    decreases s.len() - p,
{
    if p < s.len() {
        if is_blank(s[p]) {
            lemma_scanned_relex(s, p + 1);
        } else {
            let (k, e) = lex_at(s, p)->0;
            lemma_scanned_relex(s, e);
            let rest = scan_from(s, e)->Ok_0;
            let t = s.subrange(p, e);
            assert forall|u: Seq<char>, q: int|
                0 <= q && q + t.len() < u.len() && u.subrange(q, q + t.len()) == t && u[q + t.len()]
                    == ' ' implies #[trigger] lex_at(u, q) == Some((k, q + t.len())) by {
                lemma_relex(s, p, u, q);
            }
            assert(t[0] == s[p]);
            let all = seq![(k, t)] + rest;
            assert forall|i: int| 0 <= i < all.len() implies relexes(#[trigger] all[i]) by {
                if i > 0 {
                    assert(all[i] == rest[i - 1]);
                }
            }
        }
    }
}

proof fn lemma_scan_spaced(u: Seq<char>, p: int, ts: Seq<(TokenKind, Seq<char>)>)
    requires
        0 <= p <= u.len(),
        u.subrange(p, u.len() as int) == spaced(ts),
        forall|i: int| 0 <= i < ts.len() ==> relexes(#[trigger] ts[i]),
    ensures
        scan_from(u, p) == Ok::<_, int>(ts),
    decreases ts.len(),
{
    if ts.len() == 0 {
        assert(u.subrange(p, u.len() as int).len() == 0);
        assert(ts =~= seq![]);
    } else {
        let t = ts[0];
        let l = text_of(t).len() as int;
        let tail = spaced(ts.drop_first());
        let v = u.subrange(p, u.len() as int);
        assert(v == text_of(t) + seq![' '] + tail);
        assert(relexes(t));
        assert(u.subrange(p, p + l) =~= text_of(t)) by {
            assert forall|x: int| 0 <= x < l implies u.subrange(p, p + l)[x] == text_of(t)[x] by {
                assert(v[x] == u[p + x]);
                assert(v[x] == (text_of(t) + seq![' '])[x]);
            }
        }
        assert(u[p + l] == ' ') by {
            assert(v[l] == u[p + l]);
            assert(v[l] == (text_of(t) + seq![' '])[l]);
        }
        assert(u[p] == text_of(t)[0]) by {
            assert(v[0] == u[p]);
            assert(v[0] == (text_of(t) + seq![' '])[0]);
        }
        assert(lex_at(u, p) == Some((t.0, p + l)));
        assert(u.subrange(p + l + 1, u.len() as int) =~= tail) by {
            assert forall|x: int| 0 <= x < tail.len() implies u.subrange(p + l + 1, u.len() as int)[x] == tail[x] by {
                assert(v[l + 1 + x] == u[p + l + 1 + x]);
                assert(v[l + 1 + x] == tail[x]);
            }
        }
        assert forall|i: int| 0 <= i < ts.drop_first().len() implies relexes(#[trigger] ts.drop_first()[i]) by {
            assert(ts.drop_first()[i] == ts[i + 1]);
        }
        lemma_scan_spaced(u, p + l + 1, ts.drop_first());
        assert(is_blank(u[p + l]));
        assert(scan_from(u, p + l) == scan_from(u, p + l + 1));
        assert(!is_blank(u[p]));
        assert(p + l <= u.len());
        assert(scan_from(u, p) == Ok::<_, int>(seq![(t.0, u.subrange(p, p + l))] + ts.drop_first()));
        assert(seq![(t.0, u.subrange(p, p + l))] + ts.drop_first() =~= ts);
    }
}

/// Re-scanning the texts of a run of scanned tokens, each followed by a
/// blank, gives back exactly those tokens: the same kinds and the same texts.
pub proof fn law_rescan_lossless(s: Seq<char>, lo: int, hi: int)
    requires
        scan_spec(s) is Ok,
        0 <= lo <= hi <= scan_spec(s)->Ok_0.len(),
    ensures
        scan_spec(spaced(scan_spec(s)->Ok_0.subrange(lo, hi))) == Ok::<_, int>(
            scan_spec(s)->Ok_0.subrange(lo, hi),
        ),
{
    let ts = scan_spec(s)->Ok_0;
    let sub = ts.subrange(lo, hi);
    lemma_scanned_relex(s, 0);
    assert forall|i: int| 0 <= i < sub.len() implies relexes(#[trigger] sub[i]) by {
        assert(sub[i] == ts[lo + i]);
    }
    let u = spaced(sub);
    assert(u.subrange(0, u.len() as int) =~= u);
    lemma_scan_spaced(u, 0, sub);
}


proof fn lemma_matching_end_shift(ts: Toks, lo: int, hi: int, i: int, b: int, d: nat)
    requires
        0 <= lo <= i <= b <= hi <= ts.len(),
    ensures
        matching_end(ts, i, b, d) == matching_end(ts.subrange(lo, hi), i - lo, b - lo, d) + lo,
    decreases b - i,
{
    if i < b {
        assert(ts.subrange(lo, hi)[i - lo] == ts[i]);
        lemma_matching_end_shift(ts, lo, hi, i + 1, b, (d - 1) as nat);
        lemma_matching_end_shift(ts, lo, hi, i + 1, b, d + 1);
        lemma_matching_end_shift(ts, lo, hi, i + 1, b, d);
    }
}

proof fn lemma_block_end_shift(ts: Toks, lo: int, hi: int, i: int, b: int)
    requires
        0 <= lo <= i <= b <= hi <= ts.len(),
    ensures
        block_end(ts, i, b) == block_end(ts.subrange(lo, hi), i - lo, b - lo) + lo,
{
    lemma_matching_end_shift(ts, lo, hi, i, b, 0);
}

proof fn lemma_idents_end_shift(ts: Toks, lo: int, hi: int, i: int, b: int)
    requires
        0 <= lo <= i <= b <= hi <= ts.len(),
    ensures
        idents_end(ts, i, b) == idents_end(ts.subrange(lo, hi), i - lo, b - lo) + lo,
    decreases b - i,
{
    if i < b {
        assert(ts.subrange(lo, hi)[i - lo] == ts[i]);
        lemma_idents_end_shift(ts, lo, hi, i + 1, b);
    }
}

proof fn lemma_block_end_bounds(ts: Toks, i: int, b: int)
    requires
        i <= b,
    ensures
        i <= block_end(ts, i, b) <= b,
{
    lemma_matching_end(ts, i, b, 0);
}

proof fn lemma_idents_end_bounds(ts: Toks, i: int, b: int)
    requires
        i <= b,
    ensures
        i <= idents_end(ts, i, b) <= b,
    decreases b - i,
{
    if i < b {
        lemma_idents_end_bounds(ts, i + 1, b);
    }
}

/// Parsing a span of tokens in place or after cutting out the tokens
/// `[lo, hi)` around it gives the same commands.
#[verifier::rlimit(60)]
pub proof fn lemma_parse_shift(ts: Toks, lo: int, hi: int, a: int, b: int)
    requires
        0 <= lo <= a <= b <= hi <= ts.len(),
    ensures
        parse_span(ts, a, b) == parse_span(ts.subrange(lo, hi), a - lo, b - lo),
    decreases b - a,
{
    let t2 = ts.subrange(lo, hi);
    if a < b {
        let k = ts[a].0;
        assert(t2[a - lo] == ts[a]);
        if a + 1 < b {
            assert(t2[a + 1 - lo] == ts[a + 1]);
        }
        if k == TokenKind::If || k == TokenKind::Else {
            lemma_block_end_shift(ts, lo, hi, a + 1, b);
            lemma_block_end_bounds(ts, a + 1, b);
            let e1 = block_end(ts, a + 1, b);
            lemma_parse_shift(ts, lo, hi, a + 1, e1);
            lemma_parse_shift(ts, lo, hi, past_block(e1, b), b);
        } else if k == TokenKind::Fn {
            if a + 2 <= b {
                lemma_idents_end_shift(ts, lo, hi, a + 2, b);
                lemma_idents_end_bounds(ts, a + 2, b);
                let pe = idents_end(ts, a + 2, b);
                if pe < b {
                    assert(t2[pe - lo] == ts[pe]);
                    lemma_block_end_shift(ts, lo, hi, pe + 1, b);
                    lemma_block_end_bounds(ts, pe + 1, b);
                    let e2 = block_end(ts, pe + 1, b);
                    lemma_parse_shift(ts, lo, hi, pe + 1, e2);
                    lemma_parse_shift(ts, lo, hi, past_block(e2, b), b);
                    assert(ts.subrange(a + 2, pe) =~= t2.subrange(a + 2 - lo, pe - lo));
                }
            }
        } else if k == TokenKind::For {
            if a + 3 < b {
                assert(t2[a + 2 - lo] == ts[a + 2]);
                assert(t2[a + 3 - lo] == ts[a + 3]);
                lemma_block_end_shift(ts, lo, hi, a + 4, b);
                lemma_block_end_bounds(ts, a + 4, b);
                let e3 = block_end(ts, a + 4, b);
                lemma_parse_shift(ts, lo, hi, a + 4, e3);
                lemma_parse_shift(ts, lo, hi, past_block(e3, b), b);
            } else if a + 2 < b {
                assert(t2[a + 2 - lo] == ts[a + 2]);
            }
        } else if k == TokenKind::Del {
            if a + 2 <= b {
                lemma_parse_shift(ts, lo, hi, a + 2, b);
            }
        } else {
            lemma_parse_shift(ts, lo, hi, a + 1, b);
        }
    }
}

/// Re-parsing the blank-separated texts of a run of scanned tokens gives the
/// same commands as parsing that run where it stands.
pub proof fn law_reparse_lossless(s: Seq<char>, lo: int, hi: int)
    requires
        scan_spec(s) is Ok,
        0 <= lo <= hi <= scan_spec(s)->Ok_0.len(),
    ensures
        parse_spec(spaced(scan_spec(s)->Ok_0.subrange(lo, hi))) == parse_span(
            scan_spec(s)->Ok_0,
            lo,
            hi,
        ),
{
    let ts = scan_spec(s)->Ok_0;
    law_rescan_lossless(s, lo, hi);
    lemma_parse_shift(ts, lo, hi, lo, hi);
}


/// A token found at the start of `s` is found again wherever its text stands
/// followed by a blank.
proof fn lemma_first_token_relexes(s: Seq<char>)
    requires
        0 < s.len(),
        !is_blank(s[0]),
        lex_at(s, 0) is Some,
        0 < lexed_end(s, 0) <= s.len(),
    ensures
        relexes((lexed_kind(s, 0), s.subrange(0, lexed_end(s, 0)))),
{
    let k = lexed_kind(s, 0);
    let t = s.subrange(0, lexed_end(s, 0));
    assert forall|u: Seq<char>, q: int|
        0 <= q && q + t.len() < u.len() && u.subrange(q, q + t.len()) == t && u[q + t.len()] == ' '
            implies #[trigger] lex_at(u, q) == Some((k, q + t.len())) by {
        lemma_relex(s, 0, u, q);
    }
    assert(t[0] == s[0]);
}

pub open spec fn word_if() -> Seq<char> {
    seq!['i', 'f']
}

pub open spec fn word_else() -> Seq<char> {
    seq!['e', 'l', 's', 'e']
}

pub open spec fn word_end() -> Seq<char> {
    seq!['e', 'n', 'd']
}

proof fn lemma_keyword_relexes(w: Seq<char>, k: TokenKind)
    requires
        w == word_if() && k == TokenKind::If || w == word_else() && k == TokenKind::Else || w
            == word_end() && k == TokenKind::End,
    ensures
        relexes((k, w)),
{
    let s = w.push(' ');
    assert forall|x: int| 0 <= x < w.len() implies is_letter(#[trigger] s[x]) by {}
    lemma_letters_run(s, 0, w.len() as int);
    assert(s.subrange(0, w.len() as int) =~= w);
    assert(lex_at(s, 0) == Some((k, w.len() as int)));
    lemma_first_token_relexes(s);
}

proof fn lemma_end_matches(full: Toks, i: int)
    requires
        1 <= i <= full.len() - 1,
        full[full.len() - 1].0 == TokenKind::End,
        forall|x: int| 1 <= x < full.len() - 1 ==> !is_opener((#[trigger] full[x]).0) && full[x].0
            != TokenKind::End,
    ensures
        matching_end(full, i, full.len() as int, 0) == full.len() - 1,
    decreases full.len() - i,
{
    if i < full.len() - 1 {
        lemma_end_matches(full, i + 1);
    }
}

/// The block of `if` (or `else`), then text `t` holding no block keyword and
/// no `end`, then `end`, written with blanks between tokens: it scans to
/// exactly those tokens, and it parses to a single block whose body is what
/// `t` parses to on its own.
pub proof fn law_block_body(t: Seq<char>, is_if: bool)
    requires
        scan_spec(t) is Ok,
        forall|i: int|
            0 <= i < scan_spec(t)->Ok_0.len() ==> !is_opener((#[trigger] scan_spec(t)->Ok_0[i]).0)
                && scan_spec(t)->Ok_0[i].0 != TokenKind::End,
    ensures
        ({
            let head = if is_if {
                (TokenKind::If, word_if())
            } else {
                (TokenKind::Else, word_else())
            };
            let full = seq![head] + scan_spec(t)->Ok_0 + seq![(TokenKind::End, word_end())];
            &&& scan_spec(spaced(full)) == Ok::<_, int>(full)
            &&& parse_spec(spaced(full)) == match parse_spec(t) {
                Ok(b) => Ok(
                    if is_if {
                        seq![Cmd::If(b)]
                    } else {
                        seq![Cmd::Else(b)]
                    },
                ),
                Err(e) => Err(e),
            }
        }),
{
    let ts = scan_spec(t)->Ok_0;
    let head = if is_if {
        (TokenKind::If, word_if())
    } else {
        (TokenKind::Else, word_else())
    };
    let tail = (TokenKind::End, word_end());
    let full = seq![head] + ts + seq![tail];
    let n = full.len() as int;
    lemma_keyword_relexes(head.1, head.0);
    lemma_keyword_relexes(tail.1, tail.0);
    lemma_scanned_relex(t, 0);
    assert forall|i: int| 0 <= i < full.len() implies relexes(#[trigger] full[i]) by {
        if 1 <= i < n - 1 {
            assert(full[i] == ts[i - 1]);
        }
    }
    let u = spaced(full);
    assert(u.subrange(0, u.len() as int) =~= u);
    lemma_scan_spaced(u, 0, full);
    assert forall|x: int| 1 <= x < n - 1 implies !is_opener((#[trigger] full[x]).0) && full[x].0
        != TokenKind::End by {
        assert(full[x] == ts[x - 1]);
    }
    assert(full[n - 1] == tail);
    assert(full[0] == head);
    lemma_end_matches(full, 1);
    lemma_parse_shift(full, 1, n - 1, 1, n - 1);
    assert(full.subrange(1, n - 1) =~= ts);
    assert(scan_spec(u) == Ok::<_, int>(full));
    assert(parse_spec(u) == parse_span(full, 0, n));
    assert(block_end(full, 1, n) == n - 1);
    assert(parse_span(full, 1, n - 1) == parse_spec(t));
    assert(parse_span(full, n, n) == Ok::<Seq<Cmd>, crate::parser::SyntaxError>(seq![]));
    assert(past_block(n - 1, n) == n);
    match parse_spec(t) {
        Ok(b) => {
            assert(seq![if is_if { Cmd::If(b) } else { Cmd::Else(b) }] + seq![] =~= seq![
                if is_if {
                    Cmd::If(b)
                } else {
                    Cmd::Else(b)
                },
            ]);
        },
        Err(_) => {},
    }
}

} // verus!
