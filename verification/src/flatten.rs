//! Ground truth for whole documents.
//!
//! A JSON document is modelled as a tree; `doc_toks` is the token stream
//! a lexer yields for it and `doc_flat` is the flat list of (path, leaf
//! value) pairs the document contains, each path the exact ancestor chain
//! of keys and indices of that leaf.  The theorem `lemma_flatten` proves
//! that the path-tracking machine, run over the document's tokens, emits
//! exactly `doc_flat` — for nesting of any depth within the machine's
//! counter range.
use vstd::prelude::*;

use crate::model::{advance_of, bump_ok, bump_path, emission_of, emit_opt, end_path, init_state,
    lemma_run_append, lemma_run_snoc, run_from, step_ok};
use crate::model::{AtomV, CompV, Emission, MState, NumV, Run, TokV};

verus! {

/// A scalar leaf of a document tree.
#[verifier::ext_equal]
pub enum Leaf {
    Str(Seq<char>),
    Null,
    Bool(bool),
    Num(NumV),
}

/// One object member: a key and the value under it.
#[verifier::ext_equal]
pub struct Member {
    pub key: Seq<char>,
    pub val: Doc,
}

/// A JSON document tree.
#[verifier::ext_equal]
pub enum Doc {
    Atom(Leaf),
    Obj(Seq<Member>),
    Arr(Seq<Doc>),
}

/// The token a scalar leaf appears as.
pub open spec fn leaf_tok(l: Leaf) -> TokV {
    match l {
        Leaf::Str(s) => TokV::Str(s),
        Leaf::Null => TokV::Null,
        Leaf::Bool(b) => TokV::Bool(b),
        Leaf::Num(n) => TokV::Num(n),
    }
}

/// The leaf value a scalar leaf is emitted as.
pub open spec fn leaf_atom(l: Leaf) -> AtomV {
    match l {
        Leaf::Str(s) => AtomV::Str(s),
        Leaf::Null => AtomV::Null,
        Leaf::Bool(b) => AtomV::Bool(b),
        Leaf::Num(n) => AtomV::Num(n),
    }
}

/// The token stream a lexer yields for document `d`, in document order.
pub open spec fn doc_toks(d: Doc) -> Seq<TokV>
    decreases d, 1int, 0int,
{
    match d {
        Doc::Atom(l) => seq![leaf_tok(l)],
        Doc::Obj(_) => seq![TokV::StartObject] + obj_toks(d, 0) + seq![TokV::EndObject],
        Doc::Arr(_) => seq![TokV::StartArray] + arr_toks(d, 0) + seq![TokV::EndArray],
    }
}

/// The tokens of an object's members from member `i` on: each member is
/// its key followed by its value's tokens.
pub open spec fn obj_toks(d: Doc, i: int) -> Seq<TokV>
    decreases d, 0int, (match d { Doc::Obj(ms) => ms.len() - i, _ => 0int }),
{
    match d {
        Doc::Obj(ms) => if 0 <= i < ms.len() {
            seq![TokV::Key(ms[i].key)] + doc_toks(ms[i].val) + obj_toks(d, i + 1)
        } else {
            Seq::empty()
        },
        _ => Seq::empty(),
    }
}

/// The tokens of an array's elements from element `i` on.
pub open spec fn arr_toks(d: Doc, i: int) -> Seq<TokV>
    decreases d, 0int, (match d { Doc::Arr(es) => es.len() - i, _ => 0int }),
{
    match d {
        Doc::Arr(es) => if 0 <= i < es.len() {
            doc_toks(es[i]) + arr_toks(d, i + 1)
        } else {
            Seq::empty()
        },
        _ => Seq::empty(),
    }
}

/// The flat list of (path, leaf value) pairs of document `d` placed at
/// path `p`: a scalar is itself a leaf at `p`; a childless container is a
/// sentinel leaf at `p`; otherwise each member's leaves lie under
/// `p + Key(k)` and each element's under `p + Index(i)`, in document
/// order.
pub open spec fn doc_flat(d: Doc, p: Seq<CompV>) -> Seq<Emission>
    decreases d, 1int, 0int,
{
    match d {
        Doc::Atom(l) => seq![Emission { path: p, atom: leaf_atom(l) }],
        Doc::Obj(ms) => if ms.len() == 0 {
            seq![Emission { path: p, atom: AtomV::EmptyObject }]
        } else {
            obj_flat(d, 0, p)
        },
        Doc::Arr(es) => if es.len() == 0 {
            seq![Emission { path: p, atom: AtomV::EmptyArray }]
        } else {
            arr_flat(d, 0, p)
        },
    }
}

/// The leaves of an object's members from member `i` on.
pub open spec fn obj_flat(d: Doc, i: int, p: Seq<CompV>) -> Seq<Emission>
    decreases d, 0int, (match d { Doc::Obj(ms) => ms.len() - i, _ => 0int }),
{
    match d {
        Doc::Obj(ms) => if 0 <= i < ms.len() {
            doc_flat(ms[i].val, p.push(CompV::Key(ms[i].key))) + obj_flat(d, i + 1, p)
        } else {
            Seq::empty()
        },
        _ => Seq::empty(),
    }
}

/// The leaves of an array's elements from element `i` on: the element at
/// position `i` lies exactly under `p + Index(i)`.
pub open spec fn arr_flat(d: Doc, i: int, p: Seq<CompV>) -> Seq<Emission>
    decreases d, 0int, (match d { Doc::Arr(es) => es.len() - i, _ => 0int }),
{
    match d {
        Doc::Arr(es) => if 0 <= i < es.len() {
            doc_flat(es[i], p.push(CompV::Index(i))) + arr_flat(d, i + 1, p)
        } else {
            Seq::empty()
        },
        _ => Seq::empty(),
    }
}

/// The document fits the machine's counter range when it sits at nesting
/// depth `depth`: no container opens past the depth limit, and no array
/// is longer than an index can count.  Documents beyond these machine
/// limits are rejected by the traversal, not mis-flattened.
pub open spec fn doc_ok(d: Doc, depth: nat) -> bool
    decreases d, 1int, 0int,
{
    match d {
        Doc::Atom(_) => true,
        Doc::Obj(_) => depth < usize::MAX as nat && obj_ok(d, 0, depth),
        Doc::Arr(es) => depth < usize::MAX as nat && es.len() <= usize::MAX && arr_ok(d, 0, depth),
    }
}

/// The members of an object, from member `i` on, fit the counter range.
pub open spec fn obj_ok(d: Doc, i: int, depth: nat) -> bool
    decreases d, 0int, (match d { Doc::Obj(ms) => ms.len() - i, _ => 0int }),
{
    match d {
        Doc::Obj(ms) => if 0 <= i < ms.len() {
            doc_ok(ms[i].val, depth + 1) && obj_ok(d, i + 1, depth)
        } else {
            true
        },
        _ => true,
    }
}

/// The elements of an array, from element `i` on, fit the counter range.
pub open spec fn arr_ok(d: Doc, i: int, depth: nat) -> bool
    decreases d, 0int, (match d { Doc::Arr(es) => es.len() - i, _ => 0int }),
{
    match d {
        Doc::Arr(es) => if 0 <= i < es.len() {
            doc_ok(es[i], depth + 1) && arr_ok(d, i + 1, depth)
        } else {
            true
        },
        _ => true,
    }
}

/// Path well-formedness, for one document placed anywhere: started in a
/// balanced state (one path component per open container), the machine
/// consumes exactly the document's tokens, emits exactly the document's
/// flattening under the current path — every emitted path the ancestor
/// chain of its leaf — and ends with the trailing array index advanced
/// past the finished value, ready for the next sibling.
pub proof fn lemma_flatten(d: Doc, s: MState)
    requires
        s.depth == s.path.len(),
        bump_ok(s.path),
        doc_ok(d, s.depth),
    ensures
        run_from(s, doc_toks(d)) == (Run {
            state: (MState { path: bump_path(s.path), depth: s.depth }),
            out: doc_flat(d, s.path),
            err: None,
        }),
    decreases d, 1int, 0int,
{
    match d {
        Doc::Atom(l) => {
            crate::model::lemma_run_one(s, leaf_tok(l));
            assert(step_ok(s, leaf_tok(l)));
            assert(emission_of(s, leaf_tok(l)) == Some(
                Emission { path: s.path, atom: leaf_atom(l) },
            ));
            assert(emit_opt(emission_of(s, leaf_tok(l))) =~= doc_flat(d, s.path));
            assert(run_from(s, doc_toks(d)) =~= Run {
                state: MState { path: bump_path(s.path), depth: s.depth },
                out: doc_flat(d, s.path),
                err: None,
            });
        },
        Doc::Obj(ms) => {
            let start = seq![TokV::StartObject];
            let s1 = MState { path: s.path, depth: (s.depth + 1) as nat };
            assert(step_ok(s, TokV::StartObject));
            assert(advance_of(s, TokV::StartObject) == s1);
            crate::model::lemma_run_one(s, TokV::StartObject);
            if ms.len() == 0 {
                assert(obj_toks(d, 0) =~= Seq::<TokV>::empty());
                assert(doc_toks(d) =~= start.push(TokV::EndObject));
                lemma_run_snoc(s, start, TokV::EndObject);
                assert(step_ok(s1, TokV::EndObject));
                assert(emission_of(s1, TokV::EndObject) == Some(
                    Emission { path: s.path, atom: AtomV::EmptyObject },
                ));
                assert(end_path(s1) == s.path);
                assert(run_from(s, doc_toks(d)).out =~= doc_flat(d, s.path));
                assert(run_from(s, doc_toks(d)) =~= Run {
                    state: MState { path: bump_path(s.path), depth: s.depth },
                    out: doc_flat(d, s.path),
                    err: None,
                });
            } else {
                lemma_obj_run(d, 0, s.path);
                let body = obj_toks(d, 0);
                lemma_run_append(s, start, body);
                let sm = MState {
                    path: s.path.push(CompV::Key(ms[ms.len() - 1].key)),
                    depth: (s.depth + 1) as nat,
                };
                assert(run_from(s, start + body).state == sm);
                assert(run_from(s, start + body).out =~= obj_flat(d, 0, s.path));
                assert(run_from(s, start + body).err is None);
                lemma_run_snoc(s, start + body, TokV::EndObject);
                assert(doc_toks(d) =~= (start + body).push(TokV::EndObject));
                assert(step_ok(sm, TokV::EndObject));
                assert(sm.path.drop_last() =~= s.path);
                assert(end_path(sm) == sm.path.drop_last());
                assert(emission_of(sm, TokV::EndObject) is None);
                assert(run_from(s, doc_toks(d)).out =~= obj_flat(d, 0, s.path));
                assert(run_from(s, doc_toks(d)) =~= Run {
                    state: MState { path: bump_path(s.path), depth: s.depth },
                    out: doc_flat(d, s.path),
                    err: None,
                });
            }
        },
        Doc::Arr(es) => {
            let start = seq![TokV::StartArray];
            let s1 = MState { path: s.path.push(CompV::Index(0)), depth: (s.depth + 1) as nat };
            assert(step_ok(s, TokV::StartArray));
            assert(advance_of(s, TokV::StartArray) == s1);
            crate::model::lemma_run_one(s, TokV::StartArray);
            if es.len() == 0 {
                assert(arr_toks(d, 0) =~= Seq::<TokV>::empty());
                assert(doc_toks(d) =~= start.push(TokV::EndArray));
                lemma_run_snoc(s, start, TokV::EndArray);
                assert(s1.path.last() == CompV::Index(0));
                assert(s1.path.drop_last() =~= s.path);
                assert(end_path(s1) == s1.path.drop_last());
                assert(step_ok(s1, TokV::EndArray));
                assert(emission_of(s1, TokV::EndArray) == Some(
                    Emission { path: s.path, atom: AtomV::EmptyArray },
                ));
                assert(run_from(s, doc_toks(d)).out =~= doc_flat(d, s.path));
                assert(run_from(s, doc_toks(d)) =~= Run {
                    state: MState { path: bump_path(s.path), depth: s.depth },
                    out: doc_flat(d, s.path),
                    err: None,
                });
            } else {
                lemma_arr_run(d, 0, s.path);
                let body = arr_toks(d, 0);
                lemma_run_append(s, start, body);
                let sm = MState {
                    path: s.path.push(CompV::Index(es.len() as int)),
                    depth: (s.depth + 1) as nat,
                };
                assert(run_from(s, start + body).state == sm);
                assert(run_from(s, start + body).out =~= arr_flat(d, 0, s.path));
                lemma_run_snoc(s, start + body, TokV::EndArray);
                assert(doc_toks(d) =~= (start + body).push(TokV::EndArray));
                assert(sm.path.last() == CompV::Index(es.len() as int));
                assert(sm.path.drop_last() =~= s.path);
                assert(end_path(sm) == sm.path.drop_last());
                assert(step_ok(sm, TokV::EndArray));
                assert(emission_of(sm, TokV::EndArray) is None);
                assert(run_from(s, doc_toks(d)).out =~= arr_flat(d, 0, s.path));
                assert(run_from(s, doc_toks(d)) =~= Run {
                    state: MState { path: bump_path(s.path), depth: s.depth },
                    out: doc_flat(d, s.path),
                    err: None,
                });
            }
        },
    }
}

/// The members of a non-empty object, from member `i` on: the machine
/// walks them re-using one key slot — the previous sibling's key is
/// overwritten, never stacked — and emits each member's leaves under the
/// object's path extended by that member's key alone.
pub proof fn lemma_obj_run(d: Doc, i: int, base: Seq<CompV>)
    requires
        d is Obj,
        d->Obj_0.len() > 0,
        0 <= i <= d->Obj_0.len(),
        obj_ok(d, i, base.len() as nat),
    ensures
        run_from(
            MState {
                path: if i == 0 {
                    base
                } else {
                    base.push(CompV::Key(d->Obj_0[i - 1].key))
                },
                depth: (base.len() + 1) as nat,
            },
            obj_toks(d, i),
        ) == (Run {
            state: (MState {
                path: if i < d->Obj_0.len() {
                    base.push(CompV::Key(d->Obj_0[d->Obj_0.len() - 1].key))
                } else {
                    if i == 0 {
                        base
                    } else {
                        base.push(CompV::Key(d->Obj_0[i - 1].key))
                    }
                },
                depth: (base.len() + 1) as nat,
            }),
            out: obj_flat(d, i, base),
            err: None,
        }),
    decreases d, 0int, d->Obj_0.len() - i,
{
    let ms = d->Obj_0;
    let s_i = MState {
        path: if i == 0 {
            base
        } else {
            base.push(CompV::Key(ms[i - 1].key))
        },
        depth: (base.len() + 1) as nat,
    };
    if i == ms.len() {
        assert(obj_toks(d, i) =~= Seq::<TokV>::empty());
        assert(obj_flat(d, i, base) =~= Seq::<Emission>::empty());
    } else {
        let key = TokV::Key(ms[i].key);
        let sk = MState { path: base.push(CompV::Key(ms[i].key)), depth: (base.len() + 1) as nat };
        assert(step_ok(s_i, key));
        if i == 0 {
            assert(advance_of(s_i, key) == sk);
        } else {
            assert(s_i.path.update(s_i.path.len() - 1, CompV::Key(ms[i].key)) =~= sk.path);
            assert(advance_of(s_i, key) == sk);
        }
        crate::model::lemma_run_one(s_i, key);
        assert(emission_of(s_i, key) is None);
        lemma_flatten(ms[i].val, sk);
        assert(bump_path(sk.path) =~= sk.path);
        lemma_obj_run(d, i + 1, base);
        let a1 = seq![key];
        let a2 = doc_toks(ms[i].val);
        let a3 = obj_toks(d, i + 1);
        lemma_run_append(sk, a2, a3);
        lemma_run_append(s_i, a1, a2 + a3);
        assert(obj_toks(d, i) =~= a1 + (a2 + a3));
        assert(run_from(s_i, obj_toks(d, i)).out =~= obj_flat(d, i, base));
        assert(run_from(s_i, obj_toks(d, i)) =~= Run {
            state: MState {
                path: if i < ms.len() {
                    base.push(CompV::Key(ms[ms.len() - 1].key))
                } else {
                    s_i.path
                },
                depth: (base.len() + 1) as nat,
            },
            out: obj_flat(d, i, base),
            err: None,
        });
    }
}

/// The elements of an array, from element `i` on: each element runs from
/// a state whose top component is `Index(i)`, and finishing it advances
/// that index to `i + 1` — indices 0, 1, 2, … with no gaps or repeats,
/// whatever the elements are.
pub proof fn lemma_arr_run(d: Doc, i: int, base: Seq<CompV>)
    requires
        d is Arr,
        d->Arr_0.len() <= usize::MAX,
        0 <= i <= d->Arr_0.len(),
        arr_ok(d, i, base.len() as nat),
    ensures
        run_from(
            MState { path: base.push(CompV::Index(i)), depth: (base.len() + 1) as nat },
            arr_toks(d, i),
        ) == (Run {
            state: (MState {
                path: base.push(CompV::Index(d->Arr_0.len() as int)),
                depth: (base.len() + 1) as nat,
            }),
            out: arr_flat(d, i, base),
            err: None,
        }),
    decreases d, 0int, d->Arr_0.len() - i,
{
    let es = d->Arr_0;
    let s_i = MState { path: base.push(CompV::Index(i)), depth: (base.len() + 1) as nat };
    if i == es.len() {
        assert(arr_toks(d, i) =~= Seq::<TokV>::empty());
        assert(arr_flat(d, i, base) =~= Seq::<Emission>::empty());
    } else {
        assert(bump_ok(s_i.path));
        lemma_flatten(es[i], s_i);
        assert(bump_path(s_i.path) =~= base.push(CompV::Index(i + 1)));
        lemma_arr_run(d, i + 1, base);
        let a1 = doc_toks(es[i]);
        let a2 = arr_toks(d, i + 1);
        lemma_run_append(s_i, a1, a2);
        assert(arr_toks(d, i) =~= a1 + a2);
        assert(run_from(s_i, arr_toks(d, i)).out =~= arr_flat(d, i, base));
        assert(run_from(s_i, arr_toks(d, i)) =~= Run {
            state: MState {
                path: base.push(CompV::Index(es.len() as int)),
                depth: (base.len() + 1) as nat,
            },
            out: arr_flat(d, i, base),
            err: None,
        });
    }
}

/// Path well-formedness for a whole traversal: from a fresh state, the
/// machine consumes exactly a document's tokens without failing and
/// emits exactly the document's flattening — every emitted (path, value)
/// pair carries the ordered chain of keys and indices of the open
/// ancestors of that value, from a bare scalar at depth zero to nesting
/// as deep as the machine's counters reach.
pub proof fn lemma_stream_flattens_document(d: Doc)
    requires
        doc_ok(d, 0),
    ensures
        run_from(init_state(), doc_toks(d)) == (Run {
            state: init_state(),
            out: doc_flat(d, Seq::empty()),
            err: None,
        }),
{
    lemma_flatten(d, init_state());
    assert(bump_path(Seq::<CompV>::empty()) =~= Seq::<CompV>::empty());
    assert(MState { path: bump_path(Seq::<CompV>::empty()), depth: 0 } =~= init_state());
}

/// Array index monotonicity: in the flattening of an array — and so, by
/// `lemma_flatten`, in what the machine emits for it — the element at
/// position `i` contributes its leaves exactly under the array's path
/// extended by `Index(i)`, before everything the later elements
/// contribute: the indices of the direct children run 0, 1, 2, … with no
/// gaps or repeats, whatever the children are.
pub proof fn lemma_array_index_monotonicity(es: Seq<Doc>, p: Seq<CompV>, i: int)
    requires
        0 <= i < es.len(),
    ensures
        arr_flat(Doc::Arr(es), i, p) == doc_flat(es[i], p.push(CompV::Index(i))) + arr_flat(
            Doc::Arr(es),
            i + 1,
            p,
        ),
{
}

/// Sibling key independence: member `i` of an object contributes its
/// leaves exactly under the object's path extended by its own key and
/// nothing else — the key slot is rewritten between siblings, so a later
/// sibling never inherits a leftover of an earlier sibling's nested
/// path.
pub proof fn lemma_sibling_key_independence(ms: Seq<Member>, p: Seq<CompV>, i: int)
    requires
        0 <= i < ms.len(),
    ensures
        obj_flat(Doc::Obj(ms), i, p) == doc_flat(ms[i].val, p.push(CompV::Key(ms[i].key)))
            + obj_flat(Doc::Obj(ms), i + 1, p),
{
}

/// Empty-collection neutrality: a childless container among an array's
/// elements contributes exactly one sentinel at its own position and
/// nothing more, and the elements after it keep the indices of their own
/// positions — the element following the empty one at `Index(i)` is
/// still at `Index(i + 1)`, not shifted.
pub proof fn lemma_empty_collection_neutral(es: Seq<Doc>, p: Seq<CompV>, i: int)
    requires
        0 <= i < es.len(),
        es[i] == Doc::Obj(Seq::<Member>::empty()) || es[i] == Doc::Arr(Seq::<Doc>::empty()),
    ensures
        arr_flat(Doc::Arr(es), i, p) == seq![
            Emission {
                path: p.push(CompV::Index(i)),
                atom: if es[i] is Obj {
                    AtomV::EmptyObject
                } else {
                    AtomV::EmptyArray
                },
            },
        ] + arr_flat(Doc::Arr(es), i + 1, p),
{
    lemma_array_index_monotonicity(es, p, i);
}

/// Every path in a document's flattening extends the path the document
/// is placed at: nothing below the shared prefix is ever disturbed by a
/// sibling, and every component past it belongs to the leaf's own
/// ancestor chain.
pub proof fn lemma_flat_extends_prefix(d: Doc, p: Seq<CompV>)
    ensures
        forall|j: int|
            0 <= j < doc_flat(d, p).len() ==> p.len() <= (#[trigger] doc_flat(d, p)[j]).path.len()
                && doc_flat(d, p)[j].path.take(p.len() as int) == p,
    decreases d, 1int, 0int,
{
    assert(p.take(p.len() as int) =~= p);
    match d {
        Doc::Atom(_) => {
        },
        Doc::Obj(ms) => {
            if ms.len() > 0 {
                lemma_obj_flat_extends(d, 0, p);
            }
        },
        Doc::Arr(es) => {
            if es.len() > 0 {
                lemma_arr_flat_extends(d, 0, p);
            }
        },
    }
}

/// Prefix extension for an object's members, from member `i` on.
pub proof fn lemma_obj_flat_extends(d: Doc, i: int, p: Seq<CompV>)
    requires
        d is Obj,
        0 <= i,
    ensures
        forall|j: int|
            0 <= j < obj_flat(d, i, p).len() ==> p.len() <= (#[trigger] obj_flat(
                d,
                i,
                p,
            )[j]).path.len() && obj_flat(d, i, p)[j].path.take(p.len() as int) == p,
    decreases d, 0int, (match d { Doc::Obj(ms) => ms.len() - i, _ => 0int }),
{
    let ms = d->Obj_0;
    if i < ms.len() {
        let child_path = p.push(CompV::Key(ms[i].key));
        let head = doc_flat(ms[i].val, child_path);
        lemma_flat_extends_prefix(ms[i].val, child_path);
        lemma_obj_flat_extends(d, i + 1, p);
        assert forall|j: int| 0 <= j < obj_flat(d, i, p).len() implies p.len() <= (
        #[trigger] obj_flat(d, i, p)[j]).path.len() && obj_flat(d, i, p)[j].path.take(
            p.len() as int,
        ) == p by {
            if j < head.len() {
                let q = head[j].path;
                assert(q.take(child_path.len() as int) == child_path);
                assert(q.take(p.len() as int) =~= p);
            }
        }
    }
}

/// Prefix extension for an array's elements, from element `i` on.
pub proof fn lemma_arr_flat_extends(d: Doc, i: int, p: Seq<CompV>)
    requires
        d is Arr,
        0 <= i,
    ensures
        forall|j: int|
            0 <= j < arr_flat(d, i, p).len() ==> p.len() <= (#[trigger] arr_flat(
                d,
                i,
                p,
            )[j]).path.len() && arr_flat(d, i, p)[j].path.take(p.len() as int) == p,
    decreases d, 0int, (match d { Doc::Arr(es) => es.len() - i, _ => 0int }),
{
    let es = d->Arr_0;
    if i < es.len() {
        let child_path = p.push(CompV::Index(i));
        let head = doc_flat(es[i], child_path);
        lemma_flat_extends_prefix(es[i], child_path);
        lemma_arr_flat_extends(d, i + 1, p);
        assert forall|j: int| 0 <= j < arr_flat(d, i, p).len() implies p.len() <= (
        #[trigger] arr_flat(d, i, p)[j]).path.len() && arr_flat(d, i, p)[j].path.take(
            p.len() as int,
        ) == p by {
            if j < head.len() {
                let q = head[j].path;
                assert(q.take(child_path.len() as int) == child_path);
                assert(q.take(p.len() as int) =~= p);
            }
        }
    }
}

} // verus!
