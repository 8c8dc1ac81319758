//! Mathematical model of the path-tracking state machine.
//!
//! The machine consumes one JSON lexical token at a time while maintaining
//! the chain of object keys and array indices that leads to the token being
//! processed.  `run_from` folds the single-token transition over a whole
//! token sequence and collects every (path, leaf value) pair the machine
//! emits; the executable code in the crate root is proved to follow it
//! step by step.
use vstd::prelude::*;

use crate::StreamError;

verus! {

/// Model of one path component: an object member name or an array position.
#[verifier::ext_equal]
pub enum CompV {
    Key(Seq<char>),
    Index(int),
}

/// Model of a number leaf: exact integers keep their value, a floating
/// value is carried as its already-rendered decimal text.
#[verifier::ext_equal]
pub enum NumV {
    PosInt(u64),
    NegInt(i64),
    Float(Seq<char>),
}

/// Model of a leaf value, including the two sentinels for containers that
/// close without ever producing a child.
#[verifier::ext_equal]
pub enum AtomV {
    Str(Seq<char>),
    Null,
    Bool(bool),
    Num(NumV),
    EmptyObject,
    EmptyArray,
}

/// Model of one lexical token from the token source.
#[verifier::ext_equal]
pub enum TokV {
    StartObject,
    EndObject,
    StartArray,
    EndArray,
    Key(Seq<char>),
    Str(Seq<char>),
    Num(NumV),
    Bool(bool),
    Null,
}

/// One (path, leaf value) pair handed to the sink.
#[verifier::ext_equal]
pub struct Emission {
    pub path: Seq<CompV>,
    pub atom: AtomV,
}

/// Model of the tracker state: the live path buffer and the count of
/// containers that are open but not yet closed.
#[verifier::ext_equal]
pub struct MState {
    pub path: Seq<CompV>,
    pub depth: nat,
}

/// Result of running the machine over a token sequence: the final state,
/// everything emitted along the way, and the first failure if one occurred.
#[verifier::ext_equal]
pub struct Run {
    pub state: MState,
    pub out: Seq<Emission>,
    pub err: Option<StreamError>,
}

pub open spec fn init_state() -> MState {
    MState { path: Seq::empty(), depth: 0 }
}

/// Tokens after which the most recent array index advances: a child of the
/// enclosing array has just been completed.
pub open spec fn is_terminal_tok(t: TokV) -> bool {
    match t {
        TokV::Str(_) | TokV::Num(_) | TokV::Bool(_) | TokV::Null => true,
        TokV::EndObject | TokV::EndArray => true,
        _ => false,
    }
}

/// Increment the trailing array index, if the path ends in one.
pub open spec fn bump_path(p: Seq<CompV>) -> Seq<CompV> {
    if p.len() > 0 && p.last() is Index {
        p.update(p.len() - 1, CompV::Index(p.last()->Index_0 + 1))
    } else {
        p
    }
}

/// The trailing array index, if any, has room to advance without
/// overflowing the machine's index range.
pub open spec fn bump_ok(p: Seq<CompV>) -> bool {
    p.len() > 0 && p.last() is Index ==> p.last()->Index_0 < usize::MAX as int
}

/// The path as it stands right after a closing token's conditional pop:
/// a component is popped exactly when one was pushed for this level.
pub open spec fn end_path(s: MState) -> Seq<CompV> {
    if s.depth <= s.path.len() {
        s.path.drop_last()
    } else {
        s.path
    }
}

/// Whether one step of the machine succeeds from state `s` on token `t`.
/// A step fails on a malformed stream (a key or a close that no open
/// container accounts for) or when a depth or index counter would leave
/// the machine's integer range.
pub open spec fn step_ok(s: MState, t: TokV) -> bool {
    match t {
        TokV::StartObject | TokV::StartArray => s.depth < usize::MAX as nat,
        TokV::Key(_) => s.depth > s.path.len() || s.path.len() > 0,
        TokV::EndObject | TokV::EndArray => s.depth > 0 && bump_ok(end_path(s)),
        TokV::Str(_) | TokV::Num(_) | TokV::Bool(_) | TokV::Null => bump_ok(s.path),
    }
}

/// The error reported for a failing step.
pub open spec fn fail_kind(s: MState, t: TokV) -> StreamError {
    match t {
        TokV::StartObject | TokV::StartArray => StreamError::Limit,
        TokV::Key(_) => StreamError::Decode,
        TokV::EndObject | TokV::EndArray => if s.depth == 0 {
            StreamError::Decode
        } else {
            StreamError::Limit
        },
        TokV::Str(_) | TokV::Num(_) | TokV::Bool(_) | TokV::Null => StreamError::Limit,
    }
}

/// What token `t` emits from state `s`, before the state changes: every
/// scalar emits under the current path, and a closing token emits its
/// sentinel exactly when the container it closes never produced a child.
/// A childless object never pushed a component, so the current path is
/// its own; a childless array still carries the `Index(0)` slot pushed
/// when it opened, which is dropped so that the sentinel sits at the
/// array's own path.
pub open spec fn emission_of(s: MState, t: TokV) -> Option<Emission> {
    match t {
        TokV::Str(v) => Some(Emission { path: s.path, atom: AtomV::Str(v) }),
        TokV::Num(n) => Some(Emission { path: s.path, atom: AtomV::Num(n) }),
        TokV::Bool(b) => Some(Emission { path: s.path, atom: AtomV::Bool(b) }),
        TokV::Null => Some(Emission { path: s.path, atom: AtomV::Null }),
        TokV::EndObject => if s.depth > s.path.len() {
            Some(Emission { path: s.path, atom: AtomV::EmptyObject })
        } else {
            None
        },
        TokV::EndArray => if s.depth <= s.path.len() && s.path.len() > 0 && s.path.last()
            == CompV::Index(0) {
            Some(Emission { path: s.path.drop_last(), atom: AtomV::EmptyArray })
        } else {
            None
        },
        _ => None,
    }
}

/// The state after token `t` is processed from state `s`.
pub open spec fn advance_of(s: MState, t: TokV) -> MState {
    match t {
        TokV::StartObject => MState { path: s.path, depth: s.depth + 1 },
        TokV::StartArray => MState { path: s.path.push(CompV::Index(0)), depth: s.depth + 1 },
        TokV::Key(k) => if s.depth <= s.path.len() {
            MState { path: s.path.update(s.path.len() - 1, CompV::Key(k)), depth: s.depth }
        } else {
            MState { path: s.path.push(CompV::Key(k)), depth: s.depth }
        },
        TokV::EndObject | TokV::EndArray => MState {
            path: bump_path(end_path(s)),
            depth: (s.depth - 1) as nat,
        },
        TokV::Str(_) | TokV::Num(_) | TokV::Bool(_) | TokV::Null => MState {
            path: bump_path(s.path),
            depth: s.depth,
        },
    }
}

pub open spec fn emit_opt(e: Option<Emission>) -> Seq<Emission> {
    match e {
        Some(x) => seq![x],
        None => Seq::empty(),
    }
}

/// Run the machine over a whole token sequence.  A failing step keeps the
/// emission the step had already produced (a sink call precedes the state
/// change) and stops the run there.
pub open spec fn run_from(s: MState, ts: Seq<TokV>) -> Run
    decreases ts.len(),
{
    if ts.len() == 0 {
        Run { state: s, out: Seq::empty(), err: None }
    } else if !step_ok(s, ts[0]) {
        Run { state: s, out: emit_opt(emission_of(s, ts[0])), err: Some(fail_kind(s, ts[0])) }
    } else {
        let rest = run_from(advance_of(s, ts[0]), ts.drop_first());
        Run { state: rest.state, out: emit_opt(emission_of(s, ts[0])) + rest.out, err: rest.err }
    }
}

/// Splitting a run at any point composes: the machine is a fold, so the
/// run over `a + b` is the run over `a` followed, if `a` succeeded, by the
/// run over `b` from where `a` left off.
pub proof fn lemma_run_append(s: MState, a: Seq<TokV>, b: Seq<TokV>)
    ensures
        run_from(s, a + b) == if run_from(s, a).err is None {
            Run {
                state: run_from(run_from(s, a).state, b).state,
                out: run_from(s, a).out + run_from(run_from(s, a).state, b).out,
                err: run_from(run_from(s, a).state, b).err,
            }
        } else {
            Run { state: run_from(s, a).state, out: run_from(s, a).out, err: run_from(s, a).err }
        },
    decreases a.len(),
{
    if a.len() == 0 {
        assert(a + b =~= b);
        assert(run_from(s, a).out + run_from(s, b).out =~= run_from(s, b).out);
        assert(run_from(s, a + b) =~= Run {
            state: run_from(run_from(s, a).state, b).state,
            out: run_from(s, a).out + run_from(run_from(s, a).state, b).out,
            err: run_from(run_from(s, a).state, b).err,
        });
    } else {
        assert((a + b)[0] == a[0]);
        assert((a + b).len() > 0);
        if !step_ok(s, a[0]) {
            assert(run_from(s, a + b) =~= run_from(s, a));
        } else {
            let s1 = advance_of(s, a[0]);
            assert((a + b).drop_first() =~= a.drop_first() + b);
            lemma_run_append(s1, a.drop_first(), b);
            assert(run_from(s, a + b) =~= if run_from(s, a).err is None {
                Run {
                    state: run_from(run_from(s, a).state, b).state,
                    out: run_from(s, a).out + run_from(run_from(s, a).state, b).out,
                    err: run_from(run_from(s, a).state, b).err,
                }
            } else {
                Run {
                    state: run_from(s, a).state,
                    out: run_from(s, a).out,
                    err: run_from(s, a).err,
                }
            });
        }
    }
}

/// A run over a single token is exactly one step of the machine.
pub proof fn lemma_run_one(s: MState, t: TokV)
    ensures
        run_from(s, seq![t]) == if step_ok(s, t) {
            Run {
                state: advance_of(s, t),
                out: emit_opt(emission_of(s, t)),
                err: None,
            }
        } else {
            Run {
                state: s,
                out: emit_opt(emission_of(s, t)),
                err: Some(fail_kind(s, t)),
            }
        },
{
    lemma_run_snoc(s, Seq::empty(), t);
    assert(Seq::<TokV>::empty().push(t) =~= seq![t]);
    assert(run_from(s, Seq::<TokV>::empty()).out + emit_opt(emission_of(s, t)) =~= emit_opt(
        emission_of(s, t),
    ));
}

/// One more token extends a successful run by exactly one step: its
/// emission is appended, and the state moves — or the run stops there
/// with the step's failure.
pub proof fn lemma_run_snoc(s: MState, ts: Seq<TokV>, t: TokV)
    requires
        run_from(s, ts).err is None,
    ensures
        run_from(s, ts.push(t)) == if step_ok(run_from(s, ts).state, t) {
            Run {
                state: advance_of(run_from(s, ts).state, t),
                out: run_from(s, ts).out + emit_opt(emission_of(run_from(s, ts).state, t)),
                err: None,
            }
        } else {
            Run {
                state: run_from(s, ts).state,
                out: run_from(s, ts).out + emit_opt(emission_of(run_from(s, ts).state, t)),
                err: Some(fail_kind(run_from(s, ts).state, t)),
            }
        },
{
    lemma_run_append(s, ts, seq![t]);
    assert(ts.push(t) =~= ts + seq![t]);
    let pre = run_from(s, ts);
    assert(seq![t].drop_first() =~= Seq::<TokV>::empty());
    if step_ok(pre.state, t) {
        let s1 = advance_of(pre.state, t);
        assert(run_from(s1, seq![t].drop_first()) == run_from(s1, Seq::<TokV>::empty()));
        assert(run_from(pre.state, seq![t]).out =~= emit_opt(emission_of(pre.state, t)));
        assert(run_from(s, ts + seq![t]).out =~= pre.out + emit_opt(emission_of(pre.state, t)));
        assert(run_from(s, ts.push(t)) =~= Run {
            state: advance_of(pre.state, t),
            out: pre.out + emit_opt(emission_of(pre.state, t)),
            err: None,
        });
    } else {
        assert(run_from(s, ts + seq![t]).out =~= pre.out + emit_opt(emission_of(pre.state, t)));
        assert(run_from(s, ts.push(t)) =~= Run {
            state: pre.state,
            out: pre.out + emit_opt(emission_of(pre.state, t)),
            err: Some(fail_kind(pre.state, t)),
        });
    }
}

} // verus!
