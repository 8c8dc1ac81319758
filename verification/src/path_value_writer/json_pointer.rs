//! The reference sink: delimiter-separated JSON-Pointer-style text, one
//! newline-terminated line per emission.
use vstd::prelude::*;
use vstd::string::StringExecFns;

use crate::model::{AtomV, CompV, Emission, NumV};
use crate::numfmt::{dec_digits, dec_int, format_i64, format_u64, format_usize};
use crate::path_value_writer::{PathValueWriter, WriteError};
use crate::{view_comps, JsonAtom, JsonNumber, PathComponent};

verus! {

/// The text of one path component: `/` followed by the key text verbatim,
/// or by the decimal array index.
pub open spec fn render_comp(c: CompV) -> Seq<char> {
    match c {
        CompV::Key(k) => "/"@ + k,
        CompV::Index(i) => "/"@ + dec_digits(i as nat),
    }
}

/// The text of a whole path: its components in order.  An empty path
/// renders as nothing at all.
pub open spec fn render_path(p: Seq<CompV>) -> Seq<char>
    decreases p.len(),
{
    if p.len() == 0 {
        Seq::empty()
    } else {
        render_path(p.drop_last()) + render_comp(p.last())
    }
}

/// The text of a number leaf: exact decimal, preserving the
/// integer/floating distinction of the input.
pub open spec fn render_num(n: NumV) -> Seq<char> {
    match n {
        NumV::PosInt(u) => dec_digits(u as nat),
        NumV::NegInt(i) => dec_int(i as int),
        NumV::Float(s) => s,
    }
}

/// The text of a leaf value.
pub open spec fn render_atom(a: AtomV) -> Seq<char> {
    match a {
        AtomV::Str(s) => "\""@ + s + "\""@,
        AtomV::Null => "null"@,
        AtomV::Bool(b) => if b {
            "true"@
        } else {
            "false"@
        },
        AtomV::Num(n) => render_num(n),
        AtomV::EmptyObject => "{}"@,
        AtomV::EmptyArray => "[]"@,
    }
}

/// The sentinels stand for containers that closed without children.
pub open spec fn is_sentinel(a: AtomV) -> bool {
    a is EmptyObject || a is EmptyArray
}

/// The text one emission adds to the output: path, separator, value and a
/// terminating newline — or nothing, for a sentinel while sentinel
/// reporting is off.
pub open spec fn render_line(e: Emission, sep: Seq<char>, empties: bool) -> Seq<char> {
    if is_sentinel(e.atom) && !empties {
        Seq::empty()
    } else {
        render_path(e.path) + sep + render_atom(e.atom) + "\n"@
    }
}

/// The whole output text for a sequence of emissions.
pub open spec fn render_all(es: Seq<Emission>, sep: Seq<char>, empties: bool) -> Seq<char>
    decreases es.len(),
{
    if es.len() == 0 {
        Seq::empty()
    } else {
        render_all(es.drop_last(), sep, empties) + render_line(es.last(), sep, empties)
    }
}

/// Rendering configuration, fixed at construction: the separator placed
/// between path and value, and whether the empty-collection sentinels are
/// rendered at all.
#[derive(Clone, Copy, Debug)]
pub struct Options<'options> {
    pub separator: &'options str,
    pub write_empty_collections: bool,
}

impl Default for Options<'_> {
    /// A single tab between path and value; sentinels suppressed.
    fn default() -> (r: Self)
        ensures
            r.separator@ == "\t"@,
            !r.write_empty_collections,
    {
        Self { separator: "\t", write_empty_collections: false }
    }
}

/// The reference sink.  It renders every accepted pair into an in-memory
/// text buffer, which grows with the output; the surrounding program
/// decides where, and how often, the bytes go.
pub struct Writer<'options> {
    out: String,
    options: Options<'options>,
    history: Ghost<Seq<Emission>>,
}

impl<'options> Writer<'options> {
    /// The text held in the output buffer.
    pub closed spec fn output_spec(&self) -> Seq<char> {
        self.out@
    }

    /// The separator this sink renders with.
    pub open spec fn sep_spec(&self) -> Seq<char> {
        self.config().0
    }

    /// Whether this sink renders the empty-collection sentinels.
    pub open spec fn empties_spec(&self) -> bool {
        self.config().1
    }

    pub fn new(options: Options<'options>) -> (w: Writer<'options>)
        ensures
            w.wf(),
            w.emitted() == Seq::<Emission>::empty(),
            w.sep_spec() == options.separator@,
            w.empties_spec() == options.write_empty_collections,
    {
        let w = Writer { out: String::new(), options, history: Ghost(Seq::empty()) };
        proof {
            assert(w.out@ =~= render_all(w.history@, w.sep_spec(), w.empties_spec()));
        }
        w
    }

    /// The rendered output so far.
    pub fn output(&self) -> (r: &String)
        requires
            self.wf(),
        ensures
            r@ == self.output_spec(),
            r@ == render_all(self.emitted(), self.sep_spec(), self.empties_spec()),
    {
        &self.out
    }

    /// Append the rendered path to the buffer.
    fn write_path(&mut self, path: &[PathComponent<'_>])
        ensures
            final(self).out@ == old(self).out@ + render_path(view_comps(path@)),
            final(self).options == old(self).options,
            final(self).history == old(self).history,
    {
        let ghost p = view_comps(path@);
        let mut idx: usize = 0;
        while idx < path.len()
            invariant
                idx <= path.len(),
                p == view_comps(path@),
                p.len() == path@.len(),
                self.out@ == old(self).out@ + render_path(p.take(idx as int)),
                self.options == old(self).options,
                self.history == old(self).history,
            decreases path.len() - idx,
        {
            self.out.append("/");
            match path[idx] {
                PathComponent::Key(k) => {
                    self.out.append(k);
                },
                PathComponent::Index(i) => {
                    let digits = format_usize(i);
                    self.out.append(digits.as_str());
                },
            }
            proof {
                assert(p.take(idx + 1).drop_last() =~= p.take(idx as int));
                assert(p.take(idx + 1).last() == p[idx as int]);
                assert(p[idx as int] == path@[idx as int]@);
                assert(self.out@ =~= old(self).out@ + render_path(p.take(idx + 1)));
            }
            idx = idx + 1;
        }
        proof {
            assert(p.take(path@.len() as int) =~= p);
        }
    }
}

/// Idempotence of formatting: the rendered text is a pure function of
/// the accepted (path, value) sequence and the options fixed at
/// construction, so re-running the reference sink over the same
/// sequence yields byte-identical output — two sinks with the same
/// options that accepted the same pairs hold the same text.
pub proof fn lemma_format_idempotent<'a, 'b>(a: Writer<'a>, b: Writer<'b>)
    requires
        a.wf(),
        b.wf(),
        a.sep_spec() == b.sep_spec(),
        a.empties_spec() == b.empties_spec(),
        a.emitted() == b.emitted(),
    ensures
        a.output_spec() == b.output_spec(),
{
}

impl<'options> PathValueWriter for Writer<'options> {
    /// The separator text and the sentinel flag, fixed at construction.
    type Config = (Seq<char>, bool);

    /// The buffer holds exactly the rendering of every accepted pair.
    closed spec fn wf(&self) -> bool {
        self.out@ == render_all(self.history@, self.sep_spec(), self.empties_spec())
    }

    closed spec fn config(&self) -> (Seq<char>, bool) {
        (self.options.separator@, self.options.write_empty_collections)
    }

    /// Rendering into the in-memory buffer cannot fail.
    open spec fn infallible(&self) -> bool {
        true
    }

    closed spec fn emitted(&self) -> Seq<Emission> {
        self.history@
    }

    #[verifier::rlimit(60)]
    fn write_path_and_value(&mut self, path: &[PathComponent<'_>], value: JsonAtom<'_>) -> (r:
        Result<(), WriteError>)
        ensures
            r is Ok,
            final(self).sep_spec() == old(self).sep_spec(),
            final(self).empties_spec() == old(self).empties_spec(),
    {
        let ghost e = Emission { path: view_comps(path@), atom: value@ };
        let empties = self.options.write_empty_collections;
        match value {
            JsonAtom::Str(s) => {
                self.write_path(path);
                self.out.append(self.options.separator);
                self.out.append("\"");
                self.out.append(s);
                self.out.append("\"");
                self.out.append("\n");
            },
            JsonAtom::Null => {
                self.write_path(path);
                self.out.append(self.options.separator);
                self.out.append("null");
                self.out.append("\n");
            },
            JsonAtom::Bool(b) => {
                self.write_path(path);
                self.out.append(self.options.separator);
                if b {
                    self.out.append("true");
                } else {
                    self.out.append("false");
                }
                self.out.append("\n");
            },
            JsonAtom::Number(n) => {
                self.write_path(path);
                self.out.append(self.options.separator);
                match n {
                    JsonNumber::PosInt(u) => {
                        let digits = format_u64(*u);
                        self.out.append(digits.as_str());
                    },
                    JsonNumber::NegInt(i) => {
                        let digits = format_i64(*i);
                        self.out.append(digits.as_str());
                    },
                    JsonNumber::Float(s) => {
                        self.out.append(s.as_str());
                    },
                }
                self.out.append("\n");
            },
            JsonAtom::EmptyObject => {
                if empties {
                    self.write_path(path);
                    self.out.append(self.options.separator);
                    self.out.append("{}");
                    self.out.append("\n");
                }
            },
            JsonAtom::EmptyArray => {
                if empties {
                    self.write_path(path);
                    self.out.append(self.options.separator);
                    self.out.append("[]");
                    self.out.append("\n");
                }
            },
        }
        proof {
            self.history@ = self.history@.push(e);
            assert(self.history@.drop_last() =~= old(self).history@);
            assert(self.history@.last() == e);
            assert(self.out@ =~= old(self).out@ + render_line(e, self.sep_spec(), self.empties_spec()));
            assert(self.out@ =~= render_all(self.history@, self.sep_spec(), self.empties_spec()));
        }
        Ok(())
    }
}

} // verus!
