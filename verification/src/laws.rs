//! General laws of the shebang pipeline, proved once for every input:
//! the classifier produces well-formed forms, and processing a line a
//! second time — against the same filesystem model and search path —
//! computes the very line that already stands in the file, so the second
//! pass decides not to rewrite.

use vstd::prelude::*;

use crate::bytes::is_prefix;
use crate::bytes::is_ws;
use crate::bytes::join_ws;
use crate::bytes::last_segment;
use crate::bytes::lemma_join_tokens_roundtrip;
use crate::bytes::lemma_join_ws_last;
use crate::bytes::lemma_last_segment_no_slash;
use crate::bytes::lemma_last_segment_ws_free;
use crate::bytes::lemma_tokens_wf;
use crate::bytes::tokens;
use crate::bytes::trim_end;
use crate::bytes::ws_free;
use crate::rewrite::spec_should_rewrite;
use crate::search::lemma_candidate_last_segment;
use crate::search::lemma_candidate_nonempty;
use crate::search::lemma_candidate_ws_free;
use crate::search::lemma_resolve_absolute;
use crate::search::lemma_resolve_some;
use crate::search::spec_candidate;
use crate::search::spec_resolve;
use crate::shebang::dash_s;
use crate::shebang::env_name;
use crate::shebang::marker;
use crate::shebang::spec_classify;
use crate::shebang::spec_rendered;
use crate::shebang::SpecClass;
use crate::shebang::SpecForm;

verus! {

/// The replacement line of a recognised form against a filesystem model
/// (`files` is the set of regular-file paths) and a search path, when
/// every name the form needs resolves; `None` when one does not.
pub open spec fn spec_new_line(files: Set<Seq<u8>>, dirs: Seq<Seq<u8>>, form: SpecForm) -> Option<
    Seq<u8>,
> {
    match form {
        SpecForm::EnvSplit { prog, rest } => {
            if spec_resolve(files, dirs, prog) is Some && spec_resolve(files, dirs, env_name())
                is Some {
                Some(
                    spec_rendered(
                        form,
                        seq![
                            spec_resolve(files, dirs, prog)->Some_0,
                            spec_resolve(files, dirs, env_name())->Some_0,
                        ],
                    ),
                )
            } else {
                None
            }
        },
        SpecForm::EnvDirect { prog } => {
            if spec_resolve(files, dirs, prog) is Some {
                Some(spec_rendered(form, seq![spec_resolve(files, dirs, prog)->Some_0]))
            } else {
                None
            }
        },
        SpecForm::Direct { base, args } => {
            if spec_resolve(files, dirs, base) is Some {
                Some(spec_rendered(form, seq![spec_resolve(files, dirs, base)->Some_0]))
            } else {
                None
            }
        },
    }
}

/// Well-formedness of a recognised form as the classifier produces it:
/// every token is nonempty and whitespace-free, and a direct base is a
/// slash-free segment other than `env`.
pub open spec fn form_wf(form: SpecForm) -> bool {
    match form {
        SpecForm::EnvSplit { prog, rest } => prog.len() > 0 && ws_free(prog) && (forall|i: int|
            0 <= i < rest.len() ==> (#[trigger] rest[i]).len() > 0 && ws_free(rest[i])),
        SpecForm::EnvDirect { prog } => prog.len() > 0 && ws_free(prog),
        SpecForm::Direct { base, args } => ws_free(base) && !base.contains(47) && base
            != env_name() && (forall|i: int|
            0 <= i < args.len() ==> (#[trigger] args[i]).len() > 0 && ws_free(args[i])),
    }
}

/// The classifier only produces well-formed forms, with a
/// whitespace-free interpreter token.
pub proof fn lemma_classify_wf(line: Seq<u8>)
    ensures
        spec_classify(line) matches SpecClass::Script { interpreter, form } ==> form_wf(form)
            && ws_free(interpreter),
{
    if spec_classify(line) is Script {
        let toks = tokens(line.skip(2));
        lemma_tokens_wf(line.skip(2));
        if toks.len() == 0 {
            assert(ws_free(Seq::<u8>::empty()));
            assert(!Seq::<u8>::empty().contains(47u8)) by {
                if Seq::<u8>::empty().contains(47u8) {
                    let j = choose|j: int| 0 <= j < 0 && Seq::<u8>::empty()[j] == 47u8;
                }
            }
            assert(env_name().len() == 3);
        } else {
            let interpreter = toks[0];
            let args = toks.skip(1);
            assert forall|i: int|
                0 <= i < args.len() implies (#[trigger] args[i]).len() > 0 && ws_free(args[i]) by {
                assert(args[i] == toks[i + 1]);
            }
            if last_segment(interpreter) == env_name() {
                if args.len() == 0 || (args[0] == dash_s() && args.len() == 1) {
                } else if args[0] == dash_s() {
                    let rest = args.skip(2);
                    assert forall|i: int|
                        0 <= i < rest.len() implies (#[trigger] rest[i]).len() > 0 && ws_free(
                        rest[i],
                    ) by {
                        assert(rest[i] == args[i + 2]);
                    }
                }
            } else {
                lemma_last_segment_ws_free(interpreter);
                lemma_last_segment_no_slash(interpreter);
            }
        }
    }
}

/// The inputs on which a second pass is proved to change nothing: a
/// search path of whitespace-free directories, a well-formed form, and —
/// per form — a re-resolution that is determined: the `-S` program must
/// resolve to an absolute path, a plain `env` program must be slash-free
/// and not itself named `env`, and a direct base must resolve to a
/// nonempty path.
pub open spec fn rerun_stable(files: Set<Seq<u8>>, dirs: Seq<Seq<u8>>, form: SpecForm) -> bool {
    &&& forall|i: int| 0 <= i < dirs.len() ==> ws_free(#[trigger] dirs[i])
    &&& form_wf(form)
    &&& match form {
        SpecForm::EnvSplit { prog, rest } => spec_resolve(files, dirs, prog) matches Some(pp)
            && pp.len() > 0 && pp[0] == 47,
        SpecForm::EnvDirect { prog } => !prog.contains(47) && prog != env_name(),
        SpecForm::Direct { base, args } => spec_resolve(files, dirs, base) matches Some(p)
            && p.len() > 0,
    }
}

proof fn lemma_env_name_clean()
    ensures
        ws_free(env_name()),
        !env_name().contains(47),
        env_name().len() == 3,
{
    assert(env_name()[0] == 101 && env_name()[1] == 110 && env_name()[2] == 118);
    assert forall|j: int| 0 <= j < 3 implies !is_ws(env_name()[j]) by {
        if j == 0 {
        } else if j == 1 {
        } else {
        }
    }
    assert(!env_name().contains(47u8)) by {
        if env_name().contains(47u8) {
            let j = choose|j: int| 0 <= j < env_name().len() && env_name()[j] == 47u8;
            assert(j == 0 || j == 1 || j == 2);
        }
    }
}

proof fn lemma_dash_s_clean()
    ensures
        ws_free(dash_s()),
        dash_s().len() == 2,
{
    assert(dash_s()[0] == 45 && dash_s()[1] == 83);
    assert forall|j: int| 0 <= j < 2 implies !is_ws(dash_s()[j]) by {
        if j == 0 {
        } else {
        }
    }
}

/// Idempotence: a replacement line computed from a recognised shebang,
/// read back and processed again against the same filesystem model and
/// search path, computes itself — the second pass finds the new line
/// equal to the line in the file and so decides not to rewrite, whatever
/// the update flag and canonical prefix say. (With a line terminator or
/// other trailing whitespace after the stored line,
/// `lemma_classify_trim_end` reduces the second reading to this one.)
pub proof fn lemma_process_idempotent(
    files: Set<Seq<u8>>,
    dirs: Seq<Seq<u8>>,
    form: SpecForm,
    n: Seq<u8>,
)
    requires
        rerun_stable(files, dirs, form),
        spec_new_line(files, dirs, form) == Some(n),
    ensures
        trim_end(n) == n,
        spec_classify(n) matches SpecClass::Script { interpreter: i2, form: f2 } && spec_new_line(
            files,
            dirs,
            f2,
        ) == Some(n),
        forall|i2: Seq<u8>, u: bool, c: Seq<u8>| !spec_should_rewrite(n, n, i2, u, c),
{
    lemma_env_name_clean();
    lemma_dash_s_clean();
    match form {
        SpecForm::EnvSplit { prog, rest } => {
            let pp = spec_resolve(files, dirs, prog)->Some_0;
            let pe = spec_resolve(files, dirs, env_name())->Some_0;
            lemma_resolve_some(files, dirs, prog);
            lemma_resolve_some(files, dirs, env_name());
            let ie = choose|i: int|
                0 <= i < dirs.len() && spec_resolve(files, dirs, env_name()) == Some(
                    #[trigger] spec_candidate(dirs[i], env_name()),
                );
            assert(pe == spec_candidate(dirs[ie], env_name()));
            lemma_candidate_ws_free(dirs[ie], env_name());
            lemma_candidate_nonempty(dirs[ie], env_name());
            lemma_candidate_last_segment(dirs[ie], env_name());
            let ip = choose|i: int|
                0 <= i < dirs.len() && spec_resolve(files, dirs, prog) == Some(
                    #[trigger] spec_candidate(dirs[i], prog),
                );
            assert(pp == spec_candidate(dirs[ip], prog));
            lemma_candidate_ws_free(dirs[ip], prog);
            let parts = seq![pe, dash_s(), pp] + rest;
            assert forall|i: int|
                0 <= i < parts.len() implies (#[trigger] parts[i]).len() > 0 && ws_free(
                parts[i],
            ) by {
                if i == 0 {
                    assert(parts[0] == pe);
                } else if i == 1 {
                    assert(parts[1] == dash_s());
                } else if i == 2 {
                    assert(parts[2] == pp);
                } else {
                    assert(parts[i] == rest[i - 3]);
                }
            }
            assert(n == marker() + join_ws(parts)) by {
                assert(seq![seq![pp, pe][1], dash_s(), seq![pp, pe][0]] + rest =~= parts);
            }
            let jn = join_ws(parts);
            lemma_join_ws_last(parts);
            assert(!is_ws(n[n.len() - 1])) by {
                assert(n.last() == jn.last());
                assert(parts.last() == parts[parts.len() - 1]);
            }
            assert(trim_end(n) == n);
            assert(is_prefix(marker(), n)) by {
                assert(n.subrange(0, 2) =~= marker());
            }
            assert(n.skip(2) =~= jn);
            lemma_join_tokens_roundtrip(parts);
            assert(tokens(n.skip(2)) == parts);
            let args = parts.skip(1);
            assert(args[0] == dash_s());
            assert(args[1] == pp);
            assert(args.skip(2) =~= rest);
            assert(last_segment(pe) == env_name());
            let f2 = SpecForm::EnvSplit { prog: pp, rest };
            assert(spec_classify(n) == SpecClass::Script { interpreter: pe, form: f2 });
            lemma_resolve_absolute(files, dirs, pp);
            assert(spec_new_line(files, dirs, f2) == Some(spec_rendered(f2, seq![pp, pe])));
            assert(spec_rendered(f2, seq![pp, pe]) == n) by {
                assert(seq![seq![pp, pe][1], dash_s(), seq![pp, pe][0]] + rest =~= parts);
            }
        },
        SpecForm::EnvDirect { prog } => {
            let p = spec_resolve(files, dirs, prog)->Some_0;
            lemma_resolve_some(files, dirs, prog);
            let ip = choose|i: int|
                0 <= i < dirs.len() && spec_resolve(files, dirs, prog) == Some(
                    #[trigger] spec_candidate(dirs[i], prog),
                );
            assert(p == spec_candidate(dirs[ip], prog));
            lemma_candidate_ws_free(dirs[ip], prog);
            lemma_candidate_nonempty(dirs[ip], prog);
            lemma_candidate_last_segment(dirs[ip], prog);
            assert(n == marker() + p) by {
                assert(seq![p][0] == p);
            }
            assert(!is_ws(n[n.len() - 1])) by {
                assert(n.last() == p.last());
            }
            assert(trim_end(n) == n);
            assert(is_prefix(marker(), n)) by {
                assert(n.subrange(0, 2) =~= marker());
            }
            assert(n.skip(2) =~= p);
            let parts = seq![p];
            assert forall|i: int|
                0 <= i < parts.len() implies (#[trigger] parts[i]).len() > 0 && ws_free(
                parts[i],
            ) by {
                assert(parts[0] == p);
            }
            lemma_join_tokens_roundtrip(parts);
            assert(join_ws(parts) == p);
            assert(tokens(n.skip(2)) == parts);
            assert(last_segment(p) == prog);
            assert(parts.skip(1) =~= Seq::<Seq<u8>>::empty());
            let f2 = SpecForm::Direct { base: prog, args: Seq::<Seq<u8>>::empty() };
            assert(spec_classify(n) == SpecClass::Script { interpreter: p, form: f2 });
            assert(spec_new_line(files, dirs, f2) == Some(spec_rendered(f2, seq![p])));
            assert(spec_rendered(f2, seq![p]) == n) by {
                assert(seq![seq![p][0]] + Seq::<Seq<u8>>::empty() =~= parts);
            }
        },
        SpecForm::Direct { base, args } => {
            let p = spec_resolve(files, dirs, base)->Some_0;
            lemma_resolve_some(files, dirs, base);
            let ib = choose|i: int|
                0 <= i < dirs.len() && spec_resolve(files, dirs, base) == Some(
                    #[trigger] spec_candidate(dirs[i], base),
                );
            assert(p == spec_candidate(dirs[ib], base));
            lemma_candidate_ws_free(dirs[ib], base);
            lemma_candidate_last_segment(dirs[ib], base);
            let parts = seq![p] + args;
            assert forall|i: int|
                0 <= i < parts.len() implies (#[trigger] parts[i]).len() > 0 && ws_free(
                parts[i],
            ) by {
                if i == 0 {
                    assert(parts[0] == p);
                } else {
                    assert(parts[i] == args[i - 1]);
                }
            }
            assert(n == marker() + join_ws(parts)) by {
                assert(seq![seq![p][0]] + args =~= parts);
            }
            let jn = join_ws(parts);
            lemma_join_ws_last(parts);
            assert(!is_ws(n[n.len() - 1])) by {
                assert(n.last() == jn.last());
                assert(parts.last() == parts[parts.len() - 1]);
            }
            assert(trim_end(n) == n);
            assert(is_prefix(marker(), n)) by {
                assert(n.subrange(0, 2) =~= marker());
            }
            assert(n.skip(2) =~= jn);
            lemma_join_tokens_roundtrip(parts);
            assert(tokens(n.skip(2)) == parts);
            assert(last_segment(p) == base);
            assert(parts.skip(1) =~= args);
            assert(spec_classify(n) == SpecClass::Script { interpreter: p, form });
        },
    }
}

} // verus!
