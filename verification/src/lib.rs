//! Flatten a JSON document, given as a stream of lexical tokens, into one
//! (path, leaf value) pair per scalar found anywhere in the document.
//!
//! The core is the path-tracking state machine [`State`]: it consumes the
//! token stream one event at a time, maintains the exact ancestor chain
//! (object keys and array indices) of the token being processed, and hands
//! every leaf to a pluggable [`path_value_writer::PathValueWriter`] sink.
//! Its behaviour is specified by the model in [`model`] and, against a
//! whole document, by the flattening function in [`flatten`].
use vstd::prelude::*;

pub mod flatten;
pub mod model;
pub mod numfmt;
pub mod path_value_writer;
pub mod token_source;

use aws_smithy_json::deserialize::JsonTokenIterator;

use model::{advance_of, bump_ok, bump_path, emission_of, emit_opt, end_path, fail_kind, init_state,
    run_from, step_ok};
use model::{AtomV, CompV, Emission, MState, NumV, TokV};
use path_value_writer::PathValueWriter;
use token_source::{convert_token, next_raw, remaining};

verus! {

/// One component of the path to a value: an object member name (borrowed
/// from the input buffer) or a zero-based array position.
#[derive(Clone, Copy, Debug)]
pub enum PathComponent<'input> {
    Key(&'input str),
    Index(usize),
}

impl<'input> View for PathComponent<'input> {
    type V = CompV;

    open spec fn view(&self) -> CompV {
        match *self {
            PathComponent::Key(k) => CompV::Key(k@),
            PathComponent::Index(i) => CompV::Index(i as int),
        }
    }
}

/// A number leaf.  The exact-integer and floating forms are kept apart so
/// that reformatting loses no precision; a floating value is carried as
/// its shortest round-trip decimal text, rendered where the value was
/// decoded.
#[derive(Debug)]
pub enum JsonNumber {
    PosInt(u64),
    NegInt(i64),
    Float(String),
}

impl View for JsonNumber {
    type V = NumV;

    open spec fn view(&self) -> NumV {
        match self {
            JsonNumber::PosInt(u) => NumV::PosInt(*u),
            JsonNumber::NegInt(i) => NumV::NegInt(*i),
            JsonNumber::Float(s) => NumV::Float(s@),
        }
    }
}

/// The "atomic" JSON datatypes: every value that is a leaf of the document
/// tree.  This includes the two sentinels for containers that close with
/// no children, but not containers that hold elements.
#[derive(Clone, Copy, Debug)]
pub enum JsonAtom<'a> {
    Str(&'a str),
    Null,
    Bool(bool),
    Number(&'a JsonNumber),
    EmptyObject,
    EmptyArray,
}

impl<'a> View for JsonAtom<'a> {
    type V = AtomV;

    open spec fn view(&self) -> AtomV {
        match *self {
            JsonAtom::Str(s) => AtomV::Str(s@),
            JsonAtom::Null => AtomV::Null,
            JsonAtom::Bool(b) => AtomV::Bool(b),
            JsonAtom::Number(n) => AtomV::Num(n@),
            JsonAtom::EmptyObject => AtomV::EmptyObject,
            JsonAtom::EmptyArray => AtomV::EmptyArray,
        }
    }
}

/// One lexical event from the token source.  Keys and string values are
/// kept in their original escaped textual form, borrowed from the input
/// buffer.
#[derive(Debug)]
pub enum Token<'input> {
    StartObject,
    EndObject,
    StartArray,
    EndArray,
    Key(&'input str),
    Str(&'input str),
    Num(JsonNumber),
    Bool(bool),
    Null,
}

impl<'input> View for Token<'input> {
    type V = TokV;

    open spec fn view(&self) -> TokV {
        match self {
            Token::StartObject => TokV::StartObject,
            Token::EndObject => TokV::EndObject,
            Token::StartArray => TokV::StartArray,
            Token::EndArray => TokV::EndArray,
            Token::Key(k) => TokV::Key(k@),
            Token::Str(s) => TokV::Str(s@),
            Token::Num(n) => TokV::Num(n@),
            Token::Bool(b) => TokV::Bool(*b),
            Token::Null => TokV::Null,
        }
    }
}

/// Why a traversal stopped: the token source delivered a malformed
/// stream, a depth or index counter would leave the machine's integer
/// range, or the sink refused a write.  Every failure is terminal for the
/// traversal; there is no retry.
#[derive(Clone, Copy, Debug, PartialEq, Eq, Structural)]
pub enum StreamError {
    Decode,
    Limit,
    Sink,
}

/// State of one traversal: the current path and the count of open
/// containers.  `depth` may exceed the path length by exactly one, which
/// happens while a just-opened object waits for its first key.
#[derive(Debug)]
pub struct State<'input> {
    /// The current path, least deep first.
    pub path: Vec<PathComponent<'input>>,
    /// How many containers are open and not yet closed.
    pub depth: usize,
}

impl<'input> View for State<'input> {
    type V = MState;

    open spec fn view(&self) -> MState {
        MState { path: view_comps(self.path@), depth: self.depth as nat }
    }
}

/// The path buffer as a sequence of model components.
pub open spec fn view_comps<'a>(p: Seq<PathComponent<'a>>) -> Seq<CompV> {
    p.map_values(|c: PathComponent<'a>| c@)
}

/// The token slice as a sequence of model tokens.
pub open spec fn view_toks<'a>(ts: Seq<Token<'a>>) -> Seq<TokV> {
    ts.map_values(|t: Token<'a>| t@)
}

impl<'input> State<'input> {
    /// A fresh traversal: empty path, nothing open.
    pub fn new() -> (s: State<'input>)
        ensures
            s@ == model::init_state(),
    {
        let s = State { path: Vec::new(), depth: 0 };
        proof {
            assert(s@.path =~= model::init_state().path);
            assert(s@ =~= model::init_state());
        }
        s
    }

    /// Drop the most recent path component; popping an empty path leaves
    /// it empty.
    fn pop_path(&mut self)
        ensures
            final(self)@.path == (if old(self)@.path.len() > 0 {
                old(self)@.path.drop_last()
            } else {
                old(self)@.path
            }),
            final(self)@.depth == old(self)@.depth,
    {
        self.path.pop();
        proof {
            if old(self)@.path.len() > 0 {
                assert(self@.path =~= old(self)@.path.drop_last());
            } else {
                assert(self@.path =~= old(self)@.path);
            }
        }
    }

    fn add_new_array_index_to_path(&mut self)
        ensures
            final(self)@.path == old(self)@.path.push(CompV::Index(0)),
            final(self)@.depth == old(self)@.depth,
    {
        self.path.push(PathComponent::Index(0));
        proof {
            assert(self@.path =~= old(self)@.path.push(CompV::Index(0)));
        }
    }

    fn increment_depth(&mut self)
        requires
            old(self).depth < usize::MAX,
        ensures
            final(self)@.depth == old(self)@.depth + 1,
            final(self)@.path == old(self)@.path,
    {
        self.depth = self.depth + 1;
    }

    fn decrement_depth(&mut self)
        requires
            old(self).depth > 0,
        ensures
            final(self)@.depth == (old(self)@.depth - 1) as nat,
            final(self)@.path == old(self)@.path,
    {
        self.depth = self.depth - 1;
    }

    /// If the most recent path component is an array index, advance it:
    /// a child of the enclosing array has just been completed.
    fn maybe_increment_most_recent_array_index(&mut self)
        requires
            bump_ok(old(self)@.path),
        ensures
            final(self)@.path == bump_path(old(self)@.path),
            final(self)@.depth == old(self)@.depth,
    {
        let n = self.path.len();
        if n > 0 {
            match self.path[n - 1] {
                PathComponent::Index(i) => {
                    self.path[n - 1] = PathComponent::Index(i + 1);
                    proof {
                        assert(self@.path =~= bump_path(old(self)@.path));
                    }
                },
                PathComponent::Key(_) => {
                    proof {
                        assert(self@.path =~= bump_path(old(self)@.path));
                    }
                },
            }
        } else {
            proof {
                assert(self@.path =~= bump_path(old(self)@.path));
            }
        }
    }

    /// Record an object member name.  The last path slot is overwritten
    /// when a component was already pushed for this object (a later
    /// sibling key replaces the previous one); otherwise the key opens the
    /// level and is pushed.
    fn add_new_object_key_to_path(&mut self, key: &'input str)
        requires
            old(self)@.depth > old(self)@.path.len() || old(self)@.path.len() > 0,
        ensures
            final(self)@ == advance_of(old(self)@, TokV::Key(key@)),
    {
        if self.depth <= self.path.len() {
            let n = self.path.len();
            self.path[n - 1] = PathComponent::Key(key);
            proof {
                assert(self@.path =~= old(self)@.path.update(
                    old(self)@.path.len() - 1,
                    CompV::Key(key@),
                ));
                assert(self@ =~= advance_of(old(self)@, TokV::Key(key@)));
            }
        } else {
            self.path.push(PathComponent::Key(key));
            proof {
                assert(self@.path =~= old(self)@.path.push(CompV::Key(key@)));
                assert(self@ =~= advance_of(old(self)@, TokV::Key(key@)));
            }
        }
    }

    /// What `token` emits from the current state, before the state moves:
    /// scalars always, a closing token exactly when the container it
    /// closes never produced a child.  The emission's path is the first
    /// `r.0` components of the path buffer: the whole buffer for a scalar
    /// or a childless object, the buffer without its never-used `Index(0)`
    /// slot for a childless array.
    pub fn emission<'s>(&'s self, token: &'s Token<'input>) -> (r: Option<(usize, JsonAtom<'s>)>)
        ensures
            match r {
                Some(pa) => pa.0 <= self.path@.len() && emission_of(self@, token@) == Some(
                    Emission { path: self@.path.take(pa.0 as int), atom: pa.1@ },
                ),
                None => emission_of(self@, token@) is None,
            },
    {
        proof {
            assert(self@.path.take(self.path@.len() as int) =~= self@.path);
        }
        match token {
            Token::Str(s) => Some((self.path.len(), JsonAtom::Str(s))),
            Token::Num(n) => Some((self.path.len(), JsonAtom::Number(n))),
            Token::Bool(b) => Some((self.path.len(), JsonAtom::Bool(*b))),
            Token::Null => Some((self.path.len(), JsonAtom::Null)),
            Token::EndObject => if self.depth > self.path.len() {
                Some((self.path.len(), JsonAtom::EmptyObject))
            } else {
                None
            },
            Token::EndArray => {
                let n = self.path.len();
                if self.depth <= n && n > 0 {
                    match self.path[n - 1] {
                        PathComponent::Index(i) => if i == 0 {
                            proof {
                                assert(self@.path.last() == CompV::Index(0));
                                assert(self@.path.take(n - 1) =~= self@.path.drop_last());
                            }
                            Some((n - 1, JsonAtom::EmptyArray))
                        } else {
                            None
                        },
                        PathComponent::Key(_) => None,
                    }
                } else {
                    None
                }
            },
            _ => None,
        }
    }

    /// Move the state across one token, the sink call (if any) having
    /// been made from the pre-state.  Fails, leaving the state as it was,
    /// on a token no open container accounts for and when a depth or
    /// index counter would leave the machine's integer range.
    pub fn advance(&mut self, token: &Token<'input>) -> (r: Result<(), StreamError>)
        ensures
            match r {
                Ok(()) => step_ok(old(self)@, token@) && final(self)@ == advance_of(
                    old(self)@,
                    token@,
                ),
                Err(e) => !step_ok(old(self)@, token@) && e == fail_kind(old(self)@, token@)
                    && final(self)@ == old(self)@,
            },
    {
        // Refuse the step before touching any state.
        match token {
            Token::StartObject | Token::StartArray => {
                if self.depth == usize::MAX {
                    return Err(StreamError::Limit);
                }
            },
            Token::Key(_) => {
                if self.depth <= self.path.len() && self.path.len() == 0 {
                    return Err(StreamError::Decode);
                }
            },
            Token::EndObject | Token::EndArray => {
                if self.depth == 0 {
                    return Err(StreamError::Decode);
                }
                let elen = if self.depth <= self.path.len() {
                    self.path.len() - 1
                } else {
                    self.path.len()
                };
                proof {
                    assert(end_path(self@) =~= if self@.depth <= self@.path.len() {
                        self@.path.drop_last()
                    } else {
                        self@.path
                    });
                }
                if elen > 0 {
                    match self.path[elen - 1] {
                        PathComponent::Index(i) => {
                            if i == usize::MAX {
                                proof {
                                    assert(end_path(self@).last() == self@.path[elen - 1]);
                                }
                                return Err(StreamError::Limit);
                            }
                        },
                        PathComponent::Key(_) => {},
                    }
                }
                proof {
                    assert(bump_ok(end_path(self@)));
                }
            },
            Token::Str(_) | Token::Num(_) | Token::Bool(_) | Token::Null => {
                let n = self.path.len();
                if n > 0 {
                    match self.path[n - 1] {
                        PathComponent::Index(i) => {
                            if i == usize::MAX {
                                return Err(StreamError::Limit);
                            }
                        },
                        PathComponent::Key(_) => {},
                    }
                }
            },
        }
        // Apply the step.
        match token {
            Token::StartObject => {
                self.increment_depth();
            },
            Token::StartArray => {
                self.increment_depth();
                self.add_new_array_index_to_path();
            },
            Token::Key(k) => {
                self.add_new_object_key_to_path(k);
            },
            Token::EndObject | Token::EndArray => {
                // A component is popped exactly when one was pushed for
                // the container being closed; an empty container owns no
                // component, and the top one belongs to the level above.
                if self.depth <= self.path.len() {
                    self.pop_path();
                }
                self.decrement_depth();
            },
            Token::Str(_) | Token::Num(_) | Token::Bool(_) | Token::Null => {},
        }
        if is_terminal(token) {
            self.maybe_increment_most_recent_array_index();
        }
        proof {
            assert(self@ =~= advance_of(old(self)@, token@));
        }
        Ok(())
    }
}

/// Tokens that complete a value: after one of these, a child of the
/// enclosing array (if that is where we stand) has just finished.
pub fn is_terminal(token: &Token<'_>) -> (r: bool)
    ensures
        r == model::is_terminal_tok(token@),
{
    matches!(
        token,
        Token::Str(_) | Token::Num(_) | Token::Bool(_) | Token::Null | Token::EndObject
            | Token::EndArray
    )
}

/// Flatten an already-collected token sequence into `writer`.
///
/// On success the sink has received exactly the emissions of the model
/// run over the tokens.  The traversal stops at the first failure: a
/// malformed stream or an exhausted counter surfaces as the model run's
/// own error with everything before it emitted, and a refused sink write
/// surfaces as [`StreamError::Sink`] with a prefix of the run emitted.
pub fn stream_tokens<'input, W: PathValueWriter>(
    writer: &mut W,
    tokens: &Vec<Token<'input>>,
) -> (r: Result<(), StreamError>)
    requires
        old(writer).wf(),
    ensures
        final(writer).wf(),
        final(writer).config() == old(writer).config(),
        final(writer).infallible() == old(writer).infallible(),
        old(writer).infallible() ==> r != Err::<(), StreamError>(StreamError::Sink),
        ({
            let run = run_from(init_state(), view_toks(tokens@));
            match r {
                Ok(()) => run.err is None && final(writer).emitted() == old(writer).emitted()
                    + run.out,
                Err(e) => if e == StreamError::Sink {
                    exists|k: int|
                        0 <= k < run.out.len() && final(writer).emitted() == old(writer).emitted()
                            + run.out.subrange(0, k)
                } else {
                    run.err == Some(e) && final(writer).emitted() == old(writer).emitted() + run.out
                },
            }
        }),
{
    let ghost ts = view_toks(tokens@);
    let mut state = State::new();
    let mut i: usize = 0;
    while i < tokens.len()
        invariant
            old(writer).wf(),
            i <= tokens.len(),
            ts == view_toks(tokens@),
            ts.len() == tokens@.len(),
            writer.wf(),
            writer.config() == old(writer).config(),
            writer.infallible() == old(writer).infallible(),
            run_from(init_state(), ts.take(i as int)).err is None,
            state@ == run_from(init_state(), ts.take(i as int)).state,
            writer.emitted() == old(writer).emitted() + run_from(init_state(), ts.take(i as int)).out,
        decreases tokens.len() - i,
    {
        let ghost pre = run_from(init_state(), ts.take(i as int));
        let token = &tokens[i];
        proof {
            assert(ts[i as int] == token@);
            assert(ts.take(i + 1) =~= ts.take(i as int).push(token@));
            model::lemma_run_snoc(init_state(), ts.take(i as int), token@);
        }
        match state.emission(token) {
            Some((plen, atom)) => {
                let sub = &state.path.as_slice()[0..plen];
                proof {
                    assert(view_comps(sub@) =~= state@.path.take(plen as int));
                }
                let res = writer.write_path_and_value(sub, atom);
                if res.is_err() {
                    proof {
                        model::lemma_run_append(init_state(), ts.take(i as int), ts.skip(i as int));
                        assert(ts.take(i as int) + ts.skip(i as int) =~= ts);
                        let run = run_from(init_state(), ts);
                        // the refused emission itself belongs to the run,
                        // so what was written is a strict prefix
                        assert(ts.skip(i as int).len() > 0);
                        assert(ts.skip(i as int)[0] == token@);
                        assert(run_from(state@, ts.skip(i as int)).out.len() >= 1);
                        assert(run.out.len() > pre.out.len());
                        assert(run.out.subrange(0, pre.out.len() as int) =~= pre.out);
                    }
                    return Err(StreamError::Sink);
                }
                proof {
                    assert(writer.emitted() =~= old(writer).emitted() + (pre.out + emit_opt(
                        emission_of(state@, token@),
                    )));
                }
            },
            None => {
                proof {
                    assert(pre.out + emit_opt(emission_of(state@, token@)) =~= pre.out);
                }
            },
        }
        match state.advance(token) {
            Ok(()) => {},
            Err(e) => {
                proof {
                    model::lemma_run_append(init_state(), ts.take(i + 1), ts.skip(i + 1));
                    assert(ts.take(i + 1) + ts.skip(i + 1) =~= ts);
                }
                return Err(e);
            },
        }
        proof {
            assert(state@ == run_from(init_state(), ts.take(i + 1)).state);
            assert(writer.emitted() == old(writer).emitted() + run_from(
                init_state(),
                ts.take(i + 1),
            ).out);
        }
        i = i + 1;
    }
    proof {
        assert(ts.take(tokens@.len() as int) =~= ts);
    }
    Ok(())
}

/// Flatten the token stream `tokens` into `writer`: the single forward
/// pass over a whole document.
///
/// The contract is stated over the deliveries still owed by the source
/// ([`token_source::toks_of`]): on success the source ended cleanly and
/// the sink received exactly the emissions of the model run over the
/// delivered tokens; [`StreamError::Decode`] means the run itself
/// decoded a malformed stream or the source reported one at its end,
/// with everything the run emits written; [`StreamError::Limit`] is the
/// run's own counter failure, likewise with everything emitted; and
/// [`StreamError::Sink`] means a write was refused, with a strict prefix
/// of the run's emissions written.
#[verifier::loop_isolation(false)]
pub fn stream<'input, W: PathValueWriter>(
    writer: &mut W,
    tokens: JsonTokenIterator<'input>,
) -> (r: Result<(), StreamError>)
    requires
        old(writer).wf(),
    ensures
        final(writer).wf(),
        final(writer).config() == old(writer).config(),
        final(writer).infallible() == old(writer).infallible(),
        old(writer).infallible() ==> r != Err::<(), StreamError>(StreamError::Sink),
        ({
            let run = run_from(init_state(), token_source::toks_of(tokens));
            match r {
                Ok(()) => !token_source::ends_in_err(tokens) && run.err is None
                    && final(writer).emitted() == old(writer).emitted() + run.out,
                Err(e) => if e == StreamError::Sink {
                    exists|k: int|
                        0 <= k < run.out.len() && final(writer).emitted() == old(writer).emitted()
                            + run.out.subrange(0, k)
                } else if e == StreamError::Decode {
                    final(writer).emitted() == old(writer).emitted() + run.out && (run.err == Some(
                        StreamError::Decode,
                    ) || (run.err is None && token_source::ends_in_err(tokens)))
                } else {
                    run.err == Some(e) && final(writer).emitted() == old(writer).emitted() + run.out
                },
            }
        }),
{
    let ghost all = token_source::toks_of(tokens);
    let ghost ender = token_source::ends_in_err(tokens);
    let mut it = tokens;
    let mut state = State::new();
    let ghost mut ts: Seq<TokV> = Seq::empty();
    let mut done = false;
    proof {
        assert(Seq::<TokV>::empty() + token_source::toks_of(it) =~= token_source::toks_of(it));
    }
    while !done
        invariant
            old(writer).wf(),
            writer.wf(),
            writer.config() == old(writer).config(),
            writer.infallible() == old(writer).infallible(),
            run_from(init_state(), ts).err is None,
            state@ == run_from(init_state(), ts).state,
            writer.emitted() == old(writer).emitted() + run_from(init_state(), ts).out,
            !done ==> all == ts + token_source::toks_of(it),
            !done ==> ender == token_source::ends_in_err(it),
            done ==> all == ts && !ender,
        decreases remaining(it), (if done { 0int } else { 1int }),
    {
        let ghost owed = token_source::toks_of(it);
        match next_raw(&mut it) {
            None => {
                proof {
                    assert(all =~= ts);
                }
                done = true;
            },
            Some(next) => {
                match next {
                    Err(_) => {
                        proof {
                            assert(all =~= ts);
                        }
                        return Err(StreamError::Decode);
                    },
                    Ok(raw) => {
                        let token = convert_token(raw);
                        let ghost pre = run_from(init_state(), ts);
                        let ghost rest = token_source::toks_of(it);
                        proof {
                            assert(owed =~= seq![token@] + rest);
                            assert(all =~= (ts + seq![token@]) + rest);
                            model::lemma_run_snoc(init_state(), ts, token@);
                            assert(ts + seq![token@] =~= ts.push(token@));
                        }
                        match state.emission(&token) {
                            Some((plen, atom)) => {
                                let sub = &state.path.as_slice()[0..plen];
                                proof {
                                    assert(view_comps(sub@) =~= state@.path.take(plen as int));
                                }
                                let res = writer.write_path_and_value(sub, atom);
                                if res.is_err() {
                                    proof {
                                        model::lemma_run_append(init_state(), ts, owed);
                                        assert(ts + owed =~= all);
                                        let run = run_from(init_state(), all);
                                        assert(owed[0] == token@);
                                        assert(run_from(state@, owed).out.len() >= 1);
                                        assert(run.out.len() > pre.out.len());
                                        assert(run.out.subrange(0, pre.out.len() as int)
                                            =~= pre.out);
                                    }
                                    return Err(StreamError::Sink);
                                }
                                proof {
                                    assert(writer.emitted() =~= old(writer).emitted() + (pre.out
                                        + emit_opt(emission_of(state@, token@))));
                                }
                            },
                            None => {
                                proof {
                                    assert(pre.out + emit_opt(emission_of(state@, token@))
                                        =~= pre.out);
                                }
                            },
                        }
                        let ghost stepped = ts.push(token@);
                        match state.advance(&token) {
                            Ok(()) => {},
                            Err(e) => {
                                proof {
                                    model::lemma_run_append(init_state(), stepped, rest);
                                    assert(stepped + rest =~= all);
                                    assert(run_from(init_state(), all) == run_from(
                                        init_state(),
                                        stepped,
                                    ));
                                    assert(writer.emitted() == old(writer).emitted() + run_from(
                                        init_state(),
                                        all,
                                    ).out);
                                }
                                return Err(e);
                            },
                        }
                        proof {
                            ts = stepped;
                            assert(all =~= ts + rest);
                        }
                    },
                }
            },
        }
    }
    Ok(())
}

} // verus!
