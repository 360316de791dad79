//! Shebang classification and construction. The first line of a script
//! is split into an interpreter token and arguments; the `env`
//! indirection and its `-S` form are recognised; and a replacement line
//! is built from resolved interpreter paths.

use vstd::prelude::*;

use crate::bytes::append_bytes;
use crate::bytes::bytes_eq;
use crate::bytes::contains_byte;
use crate::bytes::dup;
use crate::bytes::is_prefix;
use crate::bytes::is_ws;
use crate::bytes::join_tokens;
use crate::bytes::join_ws;
use crate::bytes::last_segment;
use crate::bytes::last_segment_vec;
use crate::bytes::lemma_tokens_wf;
use crate::bytes::split_tokens;
use crate::bytes::subvec;
use crate::bytes::tokens;
use crate::bytes::trim_end;
use crate::bytes::trim_end_vec;
use crate::bytes::ws_free;
use crate::errors::PatchError;

verus! {

/// The two-byte shebang marker `#!`.
pub open spec fn marker() -> Seq<u8> {
    seq![35u8, 33u8]
}

/// The program name `env`.
pub open spec fn env_name() -> Seq<u8> {
    seq![101u8, 110u8, 118u8]
}

/// The split flag `-S`.
pub open spec fn dash_s() -> Seq<u8> {
    seq![45u8, 83u8]
}

/// The shape of a recognised shebang, at the specification level.
pub enum SpecForm {
    /// `env -S prog rest...`: both `env` and `prog` are resolved and the
    /// `-S` form is kept.
    EnvSplit { prog: Seq<u8>, rest: Seq<Seq<u8>> },
    /// `env prog`: `prog` is resolved and the `env` wrapper is dropped,
    /// along with any further arguments.
    EnvDirect { prog: Seq<u8> },
    /// A direct interpreter: its final path segment is resolved and the
    /// arguments are kept.
    Direct { base: Seq<u8>, args: Seq<Seq<u8>> },
}

/// What the first line of a file is, at the specification level.
pub enum SpecClass {
    /// The line does not start with `#!`: not a script, nothing to do.
    NotScript,
    /// An `env` shebang with no interpretable program name.
    Invalid,
    /// An `env` shebang with a flag form other than `-S`.
    Unsupported,
    /// A recognised shebang: the raw interpreter token and its shape.
    Script { interpreter: Seq<u8>, form: SpecForm },
}

/// Classifies a raw first line: the text after `#!` is split on
/// whitespace into an interpreter token and arguments, and the `env`
/// forms are told apart from a direct interpreter.
pub open spec fn spec_classify(line: Seq<u8>) -> SpecClass {
    if !is_prefix(marker(), line) {
        SpecClass::NotScript
    } else {
        let toks = tokens(line.skip(2));
        let interpreter = if toks.len() == 0 {
            Seq::<u8>::empty()
        } else {
            toks[0]
        };
        let args = if toks.len() == 0 {
            Seq::<Seq<u8>>::empty()
        } else {
            toks.skip(1)
        };
        if last_segment(interpreter) == env_name() {
            if args.len() == 0 {
                SpecClass::Invalid
            } else if args[0] == dash_s() {
                if args.len() == 1 {
                    SpecClass::Invalid
                } else {
                    SpecClass::Script {
                        interpreter,
                        form: SpecForm::EnvSplit { prog: args[1], rest: args.skip(2) },
                    }
                }
            } else if args[0][0] == 45 || args[0].contains(61) {
                SpecClass::Unsupported
            } else {
                SpecClass::Script { interpreter, form: SpecForm::EnvDirect { prog: args[0] } }
            }
        } else {
            SpecClass::Script {
                interpreter,
                form: SpecForm::Direct { base: last_segment(interpreter), args },
            }
        }
    }
}

/// Classification does not depend on trailing whitespace: a line reads
/// the same as its trimmed form. A rewritten first line is stored with a
/// line terminator; reading it back classifies it as the bare line.
pub proof fn lemma_classify_trim_end(line: Seq<u8>)
    ensures
        spec_classify(line) == spec_classify(trim_end(line)),
{
    let t = trim_end(line);
    crate::bytes::lemma_trim_end_shape(line);
    assert(marker()[0] == 35 && marker()[1] == 33);
    assert(ws_free(marker())) by {
        assert forall|j: int| 0 <= j < 2 implies !is_ws(marker()[j]) by {
            if j == 0 {
                assert(marker()[0] == 35);
            } else {
                assert(marker()[1] == 33);
            }
        }
    }
    if is_prefix(marker(), line) {
        crate::bytes::lemma_trim_keeps_ws_free_prefix(line, marker());
        let w = line.skip(t.len() as int);
        assert forall|j: int| 0 <= j < w.len() implies is_ws(w[j]) by {
            assert(w[j] == line[t.len() + j]);
        }
        assert(line.skip(2) =~= t.skip(2) + w) by {
            assert(line.subrange(0, t.len() as int) == t);
            assert forall|j: int| 0 <= j < t.len() implies line[j] == t[j] by {
                assert(line.subrange(0, t.len() as int)[j] == line[j]);
            }
        }
        crate::bytes::lemma_tokens_append_ws(t.skip(2), w);
        assert(tokens(line.skip(2)) == tokens(t.skip(2)));
    } else {
        if is_prefix(marker(), t) {
            assert(line.subrange(0, 2) =~= t.subrange(0, 2)) by {
                assert(line.subrange(0, t.len() as int) == t);
                assert forall|j: int| 0 <= j < t.len() implies line[j] == t[j] by {
                    assert(line.subrange(0, t.len() as int)[j] == line[j]);
                }
            }
        }
    }
}

/// The shape of a recognised shebang, as executable data.
pub enum ShebangForm {
    EnvSplit { prog: Vec<u8>, rest: Vec<Vec<u8>> },
    EnvDirect { prog: Vec<u8> },
    Direct { base: Vec<u8>, args: Vec<Vec<u8>> },
}

impl View for ShebangForm {
    type V = SpecForm;

    open spec fn view(&self) -> SpecForm {
        match self {
            ShebangForm::EnvSplit { prog, rest } => SpecForm::EnvSplit {
                prog: prog@,
                rest: rest.deep_view(),
            },
            ShebangForm::EnvDirect { prog } => SpecForm::EnvDirect { prog: prog@ },
            ShebangForm::Direct { base, args } => SpecForm::Direct {
                base: base@,
                args: args.deep_view(),
            },
        }
    }
}

/// The outcome of reading a first line that is not an error: either the
/// file is not a script, or its shebang was recognised. `original` is
/// the first line with the line terminator and trailing whitespace
/// removed: the exact text a rewrite replaces.
pub enum Classified {
    NotScript,
    Script { original: Vec<u8>, interpreter: Vec<u8>, form: ShebangForm },
}

/// A fresh copy of the tokens of `toks` from position `from` on.
fn tail_tokens(toks: &Vec<Vec<u8>>, from: usize) -> (r: Vec<Vec<u8>>)
    requires
        from <= toks@.len(),
    ensures
        r.deep_view() == toks.deep_view().skip(from as int),
{
    let mut r: Vec<Vec<u8>> = Vec::new();
    let mut i = from;
    proof {
        assert(r.deep_view() =~= toks.deep_view().subrange(from as int, from as int));
    }
    while i < toks.len()
        invariant
            from <= i <= toks@.len(),
            r.deep_view() == toks.deep_view().subrange(from as int, i as int),
        decreases toks@.len() - i,
    {
        let ghost old_deep = r.deep_view();
        let t = dup(&toks[i]);
        r.push(t);
        proof {
            assert(toks@[i as int].deep_view() =~= toks@[i as int]@);
            assert(r.deep_view() =~~= old_deep.push(toks.deep_view()[i as int]));
            assert(toks.deep_view().subrange(from as int, i + 1) =~= toks.deep_view().subrange(
                from as int,
                i as int,
            ).push(toks.deep_view()[i as int]));
        }
        i += 1;
    }
    proof {
        assert(toks.deep_view().subrange(from as int, toks@.len() as int) =~= toks.deep_view().skip(
            from as int,
        ));
    }
    r
}

/// Reads a file's first line and classifies it as `spec_classify` says:
/// `NotScript` exactly when the line does not start with `#!`; a
/// recognised shebang comes back with its trimmed original text; the
/// malformed `env` forms come back as the matching error, carrying that
/// same trimmed text.
pub fn classify_first_line(line: &Vec<u8>) -> (r: Result<Classified, PatchError>)
    ensures
        match r {
            Ok(c) => match c {
                Classified::NotScript => spec_classify(line@) is NotScript,
                Classified::Script { original, interpreter, form } => {
                    &&& spec_classify(line@) matches SpecClass::Script {
                        interpreter: si,
                        form: sf,
                    }
                    &&& interpreter@ == si
                    &&& form@ == sf
                    &&& original@ == trim_end(line@)
                },
            },
            Err(e) => match e {
                PatchError::InvalidShebang { line: l } => spec_classify(line@) is Invalid && l@
                    == trim_end(line@),
                PatchError::UnsupportedShebang { line: l } => spec_classify(line@) is Unsupported
                    && l@ == trim_end(line@),
                PatchError::NotFound { .. } => false,
            },
        },
        (r matches Ok(c) && c is NotScript) <==> !is_prefix(marker(), line@),
{
    if line.len() < 2 || line[0] != 35 || line[1] != 33 {
        proof {
            if is_prefix(marker(), line@) {
                assert(line@.subrange(0, 2)[0] == line@[0]);
                assert(line@.subrange(0, 2)[1] == line@[1]);
            }
        }
        return Ok(Classified::NotScript);
    }
    proof {
        assert(is_prefix(marker(), line@)) by {
            assert(line@.subrange(0, 2) =~= marker());
        }
    }
    let original = trim_end_vec(line);
    let rest = subvec(line, 2, line.len());
    proof {
        assert(rest@ =~= line@.skip(2));
        lemma_tokens_wf(line@.skip(2));
    }
    let toks = split_tokens(&rest);
    let ghost toks_dv = toks.deep_view();
    if toks.len() == 0 {
        let base: Vec<u8> = Vec::new();
        let args: Vec<Vec<u8>> = Vec::new();
        proof {
            assert(last_segment(Seq::<u8>::empty()) == Seq::<u8>::empty());
            assert(last_segment(Seq::<u8>::empty()) != env_name());
            assert(args.deep_view() =~= Seq::<Seq<u8>>::empty());
        }
        return Ok(
            Classified::Script {
                original,
                interpreter: Vec::new(),
                form: ShebangForm::Direct { base, args },
            },
        );
    }
    proof {
        assert(toks@[0].deep_view() =~= toks@[0]@);
    }
    let interpreter = dup(&toks[0]);
    let seg = last_segment_vec(&interpreter);
    let env_lit: Vec<u8> = vec![101u8, 110u8, 118u8];
    proof {
        assert(env_lit@ =~= env_name());
    }
    let ghost args = toks_dv.skip(1);
    if bytes_eq(&seg, &env_lit) {
        if toks.len() == 1 {
            proof {
                assert(args.len() == 0);
            }
            return Err(PatchError::InvalidShebang { line: original });
        }
        proof {
            assert(args[0] == toks_dv[1]);
            assert(toks@[1].deep_view() =~= toks@[1]@);
        }
        let first_arg = dup(&toks[1]);
        let dash_s_lit: Vec<u8> = vec![45u8, 83u8];
        proof {
            assert(dash_s_lit@ =~= dash_s());
        }
        if bytes_eq(&first_arg, &dash_s_lit) {
            if toks.len() == 2 {
                proof {
                    assert(args.len() == 1);
                }
                return Err(PatchError::InvalidShebang { line: original });
            }
            proof {
                assert(args[1] == toks_dv[2]);
                assert(toks@[2].deep_view() =~= toks@[2]@);
                assert(args.skip(2) =~= toks_dv.skip(3));
            }
            let prog = dup(&toks[2]);
            let rest_args = tail_tokens(&toks, 3);
            return Ok(
                Classified::Script {
                    original,
                    interpreter,
                    form: ShebangForm::EnvSplit { prog, rest: rest_args },
                },
            );
        }
        proof {
            assert(first_arg@.len() > 0);
        }
        if first_arg[0] == 45 || contains_byte(&first_arg, 61) {
            return Err(PatchError::UnsupportedShebang { line: original });
        }
        return Ok(
            Classified::Script {
                original,
                interpreter,
                form: ShebangForm::EnvDirect { prog: first_arg },
            },
        );
    }
    let args_vec = tail_tokens(&toks, 1);
    Ok(Classified::Script { original, interpreter, form: ShebangForm::Direct { base: seg, args: args_vec } })
}

/// The program names that must be resolved for a recognised shebang, in
/// the order a resolver is asked: the indirect program first, then
/// `env` itself where the `-S` form keeps the wrapper.
pub open spec fn spec_names_for(form: SpecForm) -> Seq<Seq<u8>> {
    match form {
        SpecForm::EnvSplit { prog, rest } => seq![prog, env_name()],
        SpecForm::EnvDirect { prog } => seq![prog],
        SpecForm::Direct { base, args } => seq![base],
    }
}

pub fn names_for(form: &ShebangForm) -> (r: Vec<Vec<u8>>)
    ensures
        r.deep_view() == spec_names_for(form@),
{
    let mut r: Vec<Vec<u8>> = Vec::new();
    match form {
        ShebangForm::EnvSplit { prog, rest } => {
            r.push(dup(prog));
            r.push(vec![101u8, 110u8, 118u8]);
            proof {
                assert(r.deep_view() =~~= seq![prog@, env_name()]);
            }
        },
        ShebangForm::EnvDirect { prog } => {
            r.push(dup(prog));
            proof {
                assert(r.deep_view() =~~= seq![prog@]);
            }
        },
        ShebangForm::Direct { base, args } => {
            r.push(dup(base));
            proof {
                assert(r.deep_view() =~~= seq![base@]);
            }
        },
    }
    r
}

/// The replacement shebang line built from a recognised form and the
/// resolved paths of its names (in the order of `spec_names_for`): the
/// `-S` form keeps the resolved `env` wrapper, the plain `env` form
/// drops it, a direct interpreter keeps its arguments; every part is
/// joined with single spaces behind the `#!` marker.
pub open spec fn spec_rendered(form: SpecForm, resolved: Seq<Seq<u8>>) -> Seq<u8> {
    match form {
        SpecForm::EnvSplit { prog, rest } => marker() + join_ws(
            seq![resolved[1], dash_s(), resolved[0]] + rest,
        ),
        SpecForm::EnvDirect { prog } => marker() + resolved[0],
        SpecForm::Direct { base, args } => marker() + join_ws(seq![resolved[0]] + args),
    }
}

/// Appends fresh copies of all elements of `src` to `dst`.
fn append_all(dst: &mut Vec<Vec<u8>>, src: &Vec<Vec<u8>>)
    ensures
        final(dst).deep_view() == old(dst).deep_view() + src.deep_view(),
{
    let mut i: usize = 0;
    proof {
        assert(dst.deep_view() =~= old(dst).deep_view() + src.deep_view().subrange(0, 0));
    }
    while i < src.len()
        invariant
            i <= src@.len(),
            dst.deep_view() == old(dst).deep_view() + src.deep_view().subrange(0, i as int),
        decreases src@.len() - i,
    {
        let ghost old_deep = dst.deep_view();
        let t = dup(&src[i]);
        dst.push(t);
        proof {
            assert(src@[i as int].deep_view() =~= src@[i as int]@);
            assert(dst.deep_view() =~~= old_deep.push(src.deep_view()[i as int]));
            assert(src.deep_view().subrange(0, i + 1) =~= src.deep_view().subrange(0, i as int).push(
                src.deep_view()[i as int],
            ));
            assert(old(dst).deep_view() + src.deep_view().subrange(0, i as int).push(
                src.deep_view()[i as int],
            ) =~= (old(dst).deep_view() + src.deep_view().subrange(0, i as int)).push(
                src.deep_view()[i as int],
            ));
        }
        i += 1;
    }
    proof {
        assert(src.deep_view().subrange(0, src@.len() as int) =~= src.deep_view());
    }
}

pub fn render_new_shebang(form: &ShebangForm, resolved: &Vec<Vec<u8>>) -> (r: Vec<u8>)
    requires
        resolved@.len() == spec_names_for(form@).len(),
    ensures
        r@ == spec_rendered(form@, resolved.deep_view()),
{
    let mut r: Vec<u8> = vec![35u8, 33u8];
    proof {
        assert(r@ =~= marker());
        assert(resolved@[0].deep_view() =~= resolved@[0]@);
    }
    match form {
        ShebangForm::EnvSplit { prog, rest } => {
            proof {
                assert(resolved@[1].deep_view() =~= resolved@[1]@);
            }
            let mut parts: Vec<Vec<u8>> = Vec::new();
            parts.push(dup(&resolved[1]));
            parts.push(vec![45u8, 83u8]);
            parts.push(dup(&resolved[0]));
            proof {
                assert(parts.deep_view() =~~= seq![
                    resolved.deep_view()[1],
                    dash_s(),
                    resolved.deep_view()[0],
                ]);
            }
            append_all(&mut parts, rest);
            let joined = join_tokens(&parts);
            append_bytes(&mut r, &joined);
        },
        ShebangForm::EnvDirect { prog } => {
            append_bytes(&mut r, &resolved[0]);
        },
        ShebangForm::Direct { base, args } => {
            let mut parts: Vec<Vec<u8>> = Vec::new();
            parts.push(dup(&resolved[0]));
            proof {
                assert(parts.deep_view() =~~= seq![resolved.deep_view()[0]]);
            }
            append_all(&mut parts, args);
            let joined = join_tokens(&parts);
            append_bytes(&mut r, &joined);
        },
    }
    r
}

} // verus!
