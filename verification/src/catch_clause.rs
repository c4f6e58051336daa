//! Which error types a `catch` clause handles: those it tests with
//! `param instanceof Type` in a branch that always leaves the function
//! without throwing the caught value again.
use vstd::prelude::*;

verus! {

broadcast use vstd::string::group_string_axioms;

/// A statement of a catch clause, as far as the analysis reads it.
pub enum CatchStatement {
    /// `return ...;`
    Return,
    /// `throw x;`, with `x` when the thrown expression is a plain identifier.
    Throw(Option<String>),
    /// `{ ... }`
    Block(Vec<CatchStatement>),
    /// `if (test) consequent else alternate`
    If(IfTest, Box<CatchStatement>, Option<Box<CatchStatement>>),
    /// `switch (...) { ... }`, clause by clause.
    Switch(Vec<SwitchClause>),
    /// Any other statement; it is taken to continue with the next one.
    Other,
}

/// A `case` or `default` clause of a `switch`.
pub struct SwitchClause {
    pub is_default: bool,
    pub body: Vec<CatchStatement>,
}

/// The test of an `if`.
pub enum IfTest {
    /// `left instanceof right`, each side when it is a plain identifier.
    Instanceof(Option<String>, Option<String>),
    /// Any other test.
    Other,
}

/// How control leaves a statement.
#[derive(Debug, Clone, Copy, PartialEq, Eq, Structural)]
pub enum Exit {
    /// It may go on to the next statement.
    Falls,
    /// It always leaves the function, by `return` or by throwing something
    /// other than the caught value.
    Leaves,
    /// It may throw the caught value again.
    Rethrows,
}

/// Two ways control may take: a rethrow on either is a rethrow; the pair
/// leaves only when both leave.
pub open spec fn either(a: Exit, b: Exit) -> Exit {
    if a == Exit::Rethrows || b == Exit::Rethrows {
        Exit::Rethrows
    } else if a == Exit::Leaves && b == Exit::Leaves {
        Exit::Leaves
    } else {
        Exit::Falls
    }
}

/// How control leaves `s` in a clause whose parameter is `p`.
pub open spec fn stmt_exit(s: CatchStatement, p: Seq<char>) -> Exit
    decreases s, 0int,
{
    match s {
        CatchStatement::Return => Exit::Leaves,
        CatchStatement::Throw(Some(x)) => if x@ == p {
            Exit::Rethrows
        } else {
            Exit::Leaves
        },
        CatchStatement::Throw(None) => Exit::Leaves,
        CatchStatement::Block(ss) => seq_exit_from(ss@, 0, p),
        CatchStatement::If(_, t, a) => either(
            stmt_exit(*t, p),
            match a {
                Some(e) => stmt_exit(*e, p),
                None => Exit::Falls,
            },
        ),
        CatchStatement::Switch(cs) => {
            let r = clauses_exit_from(cs@, 0, p);
            if r == Exit::Leaves && !has_default(cs@) {
                Exit::Falls
            } else {
                r
            }
        },
        CatchStatement::Other => Exit::Falls,
    }
}

/// How control leaves the statements of `ss` from index `i` on: the first
/// one that does not fall through decides; what follows it is unreachable.
pub open spec fn seq_exit_from(ss: Seq<CatchStatement>, i: int, p: Seq<char>) -> Exit
    decreases ss, ss.len() - i,
{
    if i < 0 || i >= ss.len() {
        Exit::Falls
    } else {
        let e = stmt_exit(ss[i], p);
        if e == Exit::Falls {
            seq_exit_from(ss, i + 1, p)
        } else {
            e
        }
    }
}

/// The clauses from index `i` on, each judged by its own statements.
pub open spec fn clauses_exit_from(cs: Seq<SwitchClause>, i: int, p: Seq<char>) -> Exit
    decreases cs, cs.len() - i,
{
    if i < 0 || i >= cs.len() {
        Exit::Leaves
    } else {
        proof {
            assert(decreases_to!(cs => cs[i]));
            assert(decreases_to!(cs[i] => cs[i].body));
            assert(decreases_to!(cs[i].body => cs[i].body@));
        }
        either(seq_exit_from(cs[i].body@, 0, p), clauses_exit_from(cs, i + 1, p))
    }
}

pub open spec fn has_default(cs: Seq<SwitchClause>) -> bool {
    exists|i: int| 0 <= i < cs.len() && (#[trigger] cs[i]).is_default
}

/// The types an `if`/`else if` chain handles for parameter `p`: each link
/// testing `p instanceof T` adds `T` when its branch leaves; the chain stops
/// at the first link that tests anything else.
pub open spec fn chain_types(s: CatchStatement, p: Option<Seq<char>>) -> Seq<Seq<char>>
    decreases s,
{
    match s {
        CatchStatement::If(IfTest::Instanceof(Some(l), r), t, a) => if p == Some(l@) {
            (match r {
                Some(n) => if stmt_exit(*t, l@) == Exit::Leaves {
                    seq![n@]
                } else {
                    Seq::empty()
                },
                None => Seq::empty(),
            }) + match a {
                Some(e) => chain_types(*e, p),
                None => Seq::empty(),
            }
        } else {
            Seq::empty()
        },
        _ => Seq::empty(),
    }
}

/// The types a clause body with parameter `p` handles, statement by
/// statement.
pub open spec fn caught_names(body: Seq<CatchStatement>, p: Option<Seq<char>>) -> Seq<Seq<char>>
    decreases body.len(),
{
    if body.len() == 0 {
        Seq::empty()
    } else {
        caught_names(body.drop_last(), p) + chain_types(body.last(), p)
    }
}

fn either_exec(a: Exit, b: Exit) -> (r: Exit)
    ensures
        r == either(a, b),
{
    match (a, b) {
        (Exit::Rethrows, _) | (_, Exit::Rethrows) => Exit::Rethrows,
        (Exit::Leaves, Exit::Leaves) => Exit::Leaves,
        _ => Exit::Falls,
    }
}

fn has_default_exec(cs: &Vec<SwitchClause>) -> (r: bool)
    ensures
        r == has_default(cs@),
{
    let mut i: usize = 0;
    while i < cs.len()
        invariant
            i <= cs.len(),
            forall|j: int| 0 <= j < i ==> !(#[trigger] cs@[j]).is_default,
        decreases cs.len() - i,
    {
        if cs[i].is_default {
            return true;
        }
        i += 1;
    }
    false
}

/// How control leaves `s` in a clause whose parameter is `p`.
pub fn statement_exit(s: &CatchStatement, p: &str) -> (r: Exit)
    ensures
        r == stmt_exit(*s, p@),
    decreases s, 0int,
{
    match s {
        CatchStatement::Return => Exit::Leaves,
        CatchStatement::Throw(Some(x)) => {
            if crate::text::str_eq(x.as_str(), p) {
                Exit::Rethrows
            } else {
                Exit::Leaves
            }
        },
        CatchStatement::Throw(None) => Exit::Leaves,
        CatchStatement::Block(ss) => {
            assert(decreases_to!(*s => *ss));
            sequence_exit_from(ss, 0, p)
        },
        CatchStatement::If(_, t, a) => {
            let x = statement_exit(t, p);
            let y = match a {
                Some(e) => statement_exit(e, p),
                None => Exit::Falls,
            };
            either_exec(x, y)
        },
        CatchStatement::Switch(cs) => {
            assert(decreases_to!(*s => *cs));
            let r = clauses_exit(cs, 0, p);
            if r == Exit::Leaves && !has_default_exec(cs) {
                Exit::Falls
            } else {
                r
            }
        },
        CatchStatement::Other => Exit::Falls,
    }
}

fn sequence_exit_from(ss: &Vec<CatchStatement>, i: usize, p: &str) -> (r: Exit)
    requires
        i <= ss.len(),
    ensures
        r == seq_exit_from(ss@, i as int, p@),
    decreases ss, ss.len() - i,
{
    if i >= ss.len() {
        return Exit::Falls;
    }
    proof {
        assert(decreases_to!(*ss => ss@));
        assert(decreases_to!(ss@ => ss@[i as int]));
    }
    let e = statement_exit(&ss[i], p);
    if e == Exit::Falls {
        sequence_exit_from(ss, i + 1, p)
    } else {
        e
    }
}

fn clauses_exit(cs: &Vec<SwitchClause>, i: usize, p: &str) -> (r: Exit)
    requires
        i <= cs.len(),
    ensures
        r == clauses_exit_from(cs@, i as int, p@),
    decreases cs, cs.len() - i,
{
    if i >= cs.len() {
        return Exit::Leaves;
    }
    proof {
        assert(decreases_to!(*cs => cs@));
        assert(decreases_to!(cs@ => cs@[i as int]));
        assert(decreases_to!(cs@[i as int] => cs@[i as int].body));
    }
    let first = sequence_exit_from(&cs[i].body, 0, p);
    let rest = clauses_exit(cs, i + 1, p);
    either_exec(first, rest)
}

fn chain_types_exec(s: &CatchStatement, p: Option<&str>, out: &mut Vec<String>)
    ensures
        final(out).deep_view() == old(out).deep_view() + chain_types(
            *s,
            match p {
                Some(q) => Some(q@),
                None => None,
            },
        ),
    decreases s,
{
    let ghost pv: Option<Seq<char>> = match p {
        Some(q) => Some(q@),
        None => None,
    };
    match s {
        CatchStatement::If(IfTest::Instanceof(Some(l), r), t, a) => {
            let same = match p {
                Some(q) => crate::text::str_eq(l.as_str(), q),
                None => false,
            };
            if !same {
                assert(out.deep_view() =~= old(out).deep_view() + Seq::<Seq<char>>::empty());
                return;
            }
            let ghost before = out.deep_view();
            let ghost head: Seq<Seq<char>> = match r {
                Some(n) => if stmt_exit(**t, l@) == Exit::Leaves {
                    seq![n@]
                } else {
                    Seq::empty()
                },
                None => Seq::empty(),
            };
            match r {
                Some(n) => {
                    if statement_exit(t, l.as_str()) == Exit::Leaves {
                        out.push(n.clone());
                        assert(out.deep_view() =~= before + head);
                    } else {
                        assert(out.deep_view() =~= before + head);
                    }
                },
                None => {
                    assert(out.deep_view() =~= before + head);
                },
            }
            let ghost mid = out.deep_view();
            match a {
                Some(e) => {
                    chain_types_exec(e, p, out);
                    assert(out.deep_view() =~= before + (head + chain_types(**e, pv)));
                },
                None => {
                    assert(out.deep_view() =~= before + (head + Seq::<Seq<char>>::empty()));
                },
            }
        },
        _ => {
            assert(out.deep_view() =~= old(out).deep_view() + Seq::<Seq<char>>::empty());
        },
    }
}

/// The types a catch clause with parameter `param` and statements `body`
/// handles, in order.
pub fn extract_instanceof_types(body: &Vec<CatchStatement>, param: Option<&str>) -> (r: Vec<String>)
    ensures
        r.deep_view() == caught_names(
            body@,
            match param {
                Some(q) => Some(q@),
                None => None,
            },
        ),
{
    let ghost pv: Option<Seq<char>> = match param {
        Some(q) => Some(q@),
        None => None,
    };
    let mut out: Vec<String> = Vec::new();
    let mut i: usize = 0;
    assert(body@.take(0) =~= Seq::<CatchStatement>::empty());
    assert(out.deep_view() =~= Seq::<Seq<char>>::empty());
    while i < body.len()
        invariant
            i <= body.len(),
            out.deep_view() == caught_names(body@.take(i as int), pv),
            pv == match param {
                Some(q) => Some(q@),
                None => None,
            },
        decreases body.len() - i,
    {
        assert(body@.take(i + 1).drop_last() =~= body@.take(i as int));
        assert(body@.take(i + 1).last() == body@[i as int]);
        chain_types_exec(&body[i], param, &mut out);
        assert(caught_names(body@.take(i + 1), pv) == caught_names(body@.take(i as int), pv) + chain_types(body@[i as int], pv));
        i += 1;
    }
    assert(body@.take(body.len() as int) =~= body@);
    out
}

/// A catch clause without a parameter cannot test what it caught: it
/// handles no type by `instanceof`.
pub proof fn law_no_parameter_handles_nothing(body: Seq<CatchStatement>)
    ensures
        caught_names(body, None) == Seq::<Seq<char>>::empty(),
    decreases body.len(),
{
    if body.len() > 0 {
        law_no_parameter_handles_nothing(body.drop_last());
        assert(chain_types(body.last(), None) =~= Seq::<Seq<char>>::empty());
    }
}

/// A branch that may throw the caught value again handles nothing: its
/// type is not among those an `if`/`else if` chain handles unless a later
/// link of the chain handles it.
pub proof fn law_rethrowing_branch_handles_nothing(
    l: String,
    r: String,
    t: CatchStatement,
    a: Option<Box<CatchStatement>>,
)
    requires
        stmt_exit(t, l@) == Exit::Rethrows,
    ensures
        chain_types(CatchStatement::If(IfTest::Instanceof(Some(l), Some(r)), Box::new(t), a), Some(l@)) == match a {
            Some(e) => chain_types(*e, Some(l@)),
            None => Seq::<Seq<char>>::empty(),
        },
{
    let s = CatchStatement::If(IfTest::Instanceof(Some(l), Some(r)), Box::new(t), a);
    match a {
        Some(e) => assert(chain_types(s, Some(l@)) =~= Seq::<Seq<char>>::empty() + chain_types(*e, Some(l@))),
        None => assert(chain_types(s, Some(l@)) =~= Seq::<Seq<char>>::empty() + Seq::<Seq<char>>::empty()),
    }
}

} // verus!
