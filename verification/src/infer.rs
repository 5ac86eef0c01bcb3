use vstd::prelude::*;

use crate::errors::CargoPlayError;
use crate::steps::units_view;
use crate::text::str_eq;
use quote::ToTokens;

verus! {

/// One token of a source unit, as the inference walk reads it: an identifier
/// with its text, a bracketed group with its inner tokens, or anything else.
#[derive(Debug)]
pub enum Tok {
    Ident(String),
    Group(Vec<Tok>),
    Other,
}

/// What the lexer yields for a source unit: its token tree when the unit
/// parses, and nothing otherwise. The result depends on the text alone.
pub uninterp spec fn parsed_tokens(s: Seq<char>) -> Option<Seq<Tok>>;

/// The dependency candidates of a token sequence: for every adjacent pair
/// whose first token is the identifier `use`, the second token's identifier
/// text; groups are walked recursively, in place.
pub open spec fn use_names(toks: Seq<Tok>) -> Seq<Seq<char>>
    decreases toks,
{
    if toks.len() == 0 {
        Seq::empty()
    } else {
        (match toks[0] {
            Tok::Group(g) => use_names(g@),
            Tok::Ident(s) => {
                if toks.len() >= 2 && s@ == "use"@ {
                    match toks[1] {
                        Tok::Ident(t) => seq![t@],
                        _ => Seq::empty(),
                    }
                } else {
                    Seq::empty()
                }
            },
            Tok::Other => Seq::empty(),
        }) + use_names(toks.drop_first())
    }
}

/// The reserved path roots that denote local or standard scopes rather than
/// external dependencies.
pub open spec fn is_reserved(s: Seq<char>) -> bool {
    s == "std"@ || s == "core"@ || s == "crate"@ || s == "self"@ || s == "alloc"@ || s
        == "super"@
}

/// Runtime test for [`is_reserved`].
pub fn is_reserved_exec(s: &str) -> (r: bool)
    ensures
        r == is_reserved(s@),
{
    str_eq(s, "std") || str_eq(s, "core") || str_eq(s, "crate") || str_eq(s, "self") || str_eq(
        s,
        "alloc",
    ) || str_eq(s, "super")
}

/// Keeps the first occurrence of every element and drops later repeats.
pub open spec fn dedup_first(s: Seq<Seq<char>>) -> Seq<Seq<char>>
    decreases s.len(),
{
    if s.len() == 0 {
        Seq::empty()
    } else {
        let rest = dedup_first(s.drop_last());
        if rest.contains(s.last()) {
            rest
        } else {
            rest.push(s.last())
        }
    }
}

/// The candidates of one parsed source unit.
pub open spec fn unit_names(u: Seq<char>) -> Seq<Seq<char>> {
    use_names(parsed_tokens(u)->0)
}

/// What inference yields over a batch of units that all parse: every unit's
/// candidates in order, the reserved roots dropped, each name kept once at
/// its first occurrence.
pub open spec fn inferred_spec(units: Seq<Seq<char>>) -> Seq<Seq<char>> {
    dedup_first(
        units.flat_map(|u: Seq<char>| unit_names(u)).filter(|n: Seq<char>| !is_reserved(n)),
    )
}

proof fn lemma_dedup_first_subset(s: Seq<Seq<char>>, x: Seq<char>)
    requires
        dedup_first(s).contains(x),
    ensures
        s.contains(x),
    decreases s.len(),
{
    if s.len() > 0 {
        let rest = dedup_first(s.drop_last());
        if rest.contains(x) {
            lemma_dedup_first_subset(s.drop_last(), x);
            let i = choose|i: int| 0 <= i < s.drop_last().len() && s.drop_last()[i] == x;
            assert(s[i] == x);
        } else {
            assert(dedup_first(s) == rest.push(s.last()));
            assert(x == s.last());
            assert(s[s.len() - 1] == x);
        }
    }
}

/// Reserved roots are excluded: a reserved local-scope root never appears
/// in the inferred dependency set, whatever the units hold.
pub proof fn lemma_reserved_excluded(units: Seq<Seq<char>>, x: Seq<char>)
    requires
        inferred_spec(units).contains(x),
    ensures
        !is_reserved(x),
{
    broadcast use Seq::lemma_filter_pred;

    let keep = |n: Seq<char>| !is_reserved(n);
    let filtered = units.flat_map(|u: Seq<char>| unit_names(u)).filter(keep);
    lemma_dedup_first_subset(filtered, x);
    let i = choose|i: int| 0 <= i < filtered.len() && filtered[i] == x;
    assert(keep(filtered[i]));
}

/// Declares `proc_macro2::TokenStream` so that the conversion below can take
/// it; the type stays opaque.
#[verifier::external_type_specification]
#[verifier::external_body]
pub struct ExTokenStream(proc_macro2::TokenStream);

/// Recursively converts a `proc_macro2` token stream into the library's own
/// token model, one token for one token.
#[verifier::external_body]
fn convert_stream(ts: proc_macro2::TokenStream) -> Vec<Tok> {
    ts.into_iter().map(
        |tt| match tt {
            proc_macro2::TokenTree::Ident(i) => Tok::Ident(i.to_string()),
            proc_macro2::TokenTree::Group(g) => Tok::Group(convert_stream(g.stream())),
            proc_macro2::TokenTree::Punct(_) => Tok::Other,
            proc_macro2::TokenTree::Literal(_) => Tok::Other,
        },
    ).collect()
}

/// Relies on `syn::parse_file` and `quote::ToTokens`: a unit that is valid
/// Rust source yields its token tree, deterministically from the text alone;
/// any other unit yields a parse error.
#[verifier::external_body]
fn tokenize(source: &str) -> (r: Result<Vec<Tok>, String>)
    ensures
        match r {
            Ok(toks) => parsed_tokens(source@) == Some(toks@),
            Err(_) => parsed_tokens(source@) is None,
        },
{
    match syn::parse_file(source) {
        Ok(file) => Ok(convert_stream(file.into_token_stream())),
        Err(e) => Err(format!("{:?}", e)),
    }
}

/// Appends the dependency candidates of `toks` to `out`; see [`use_names`].
#[verifier::loop_isolation(false)]
fn collect_use_names(toks: &Vec<Tok>, out: &mut Vec<String>)
    ensures
        final(out).deep_view() == old(out).deep_view() + use_names(toks@),
    decreases toks@,
{
    let ghost base = out.deep_view();
    let ghost mut done: Seq<Seq<char>> = Seq::empty();
    let n = toks.len();
    let mut i: usize = 0;
    proof {
        assert(toks@.skip(0) =~= toks@);
        assert(Seq::<Seq<char>>::empty() + use_names(toks@) =~= use_names(toks@));
    }
    while i < n
        invariant
            i <= n,
            use_names(toks@) == done + use_names(toks@.skip(i as int)),
            out.deep_view() == base + done,
        decreases n - i,
    {
        proof {
            assert(toks@.skip(i as int)[0] == toks@[i as int]);
            assert(toks@.skip(i as int).drop_first() =~= toks@.skip(i + 1 as int));
            if i + 1 < n {
                assert(toks@.skip(i as int)[1] == toks@[i + 1 as int]);
            }
        }
        match &toks[i] {
            Tok::Group(g) => {
                let ghost pre = out.deep_view();
                proof {
                    assert(decreases_to!(toks@ => toks@[i as int]));
                    assert(decreases_to!(toks@[i as int] => *g));
                    assert(decreases_to!(*g => g@));
                }
                collect_use_names(g, out);
                proof {
                    done = done + use_names(g@);
                    assert(out.deep_view() =~= base + done);
                    assert(use_names(toks@) =~= done + use_names(toks@.skip(i + 1 as int)));
                }
            },
            Tok::Ident(s) => {
                if i + 1 < n {
                    let mut recorded = false;
                    match &toks[i + 1] {
                        Tok::Ident(t) => {
                            if str_eq(s.as_str(), "use") {
                                let ghost prev_dv = out.deep_view();
                                let ghost prev_view = out@;
                                let name = t.clone();
                                out.push(name);
                                recorded = true;
                                proof {
                                    assert(out@ == prev_view.push(name));
                                    assert(out.deep_view() =~~= prev_dv.push(t@));
                                    done = done.push(t@);
                                    assert(out.deep_view() =~= base + done);
                                    assert(use_names(toks@) =~= done + use_names(
                                        toks@.skip(i + 1 as int),
                                    ));
                                }
                            }
                        },
                        _ => {},
                    }
                    proof {
                        if !recorded {
                            assert(use_names(toks@) =~= done + use_names(
                                toks@.skip(i + 1 as int),
                            ));
                        }
                    }
                } else {
                    proof {
                        assert(use_names(toks@) =~= done + use_names(toks@.skip(i + 1 as int)));
                    }
                }
            },
            Tok::Other => {
                proof {
                    assert(use_names(toks@) =~= done + use_names(toks@.skip(i + 1 as int)));
                }
            },
        }
        i = i + 1;
    }
    proof {
        assert(toks@.skip(n as int) =~= Seq::<Tok>::empty());
        assert(out.deep_view() =~= base + use_names(toks@));
    }
}

/// Whether `v` already holds a string with the characters of `s`.
fn contains_name(v: &Vec<String>, s: &str) -> (r: bool)
    ensures
        r == v.deep_view().contains(s@),
{
    let n = v.len();
    let mut i: usize = 0;
    while i < n
        invariant
            i <= n == v@.len(),
            forall|j: int| 0 <= j < i ==> v.deep_view()[j] != s@,
        decreases n - i,
    {
        let e = &v[i];
        if str_eq(e.as_str(), s) {
            proof {
                assert(v.deep_view()[i as int] == s@);
            }
            return true;
        }
        i = i + 1;
    }
    proof {
        assert(forall|j: int| 0 <= j < v.deep_view().len() ==> v.deep_view()[j] != s@);
    }
    false
}

/// Walks every source unit's token structure and gathers the set of probable
/// external dependency names: identifiers that follow the `use` keyword, with
/// groups walked recursively, reserved local-scope roots dropped, and each
/// name reported once. Any unit that fails to parse aborts inference.
#[verifier::loop_isolation(false)]
pub fn analyze_sources(stdin: Option<&str>, sources: &[&str]) -> (r: Result<
    Vec<String>,
    CargoPlayError,
>)
    ensures
        match r {
            Ok(names) => {
                &&& forall|k: int|
                    0 <= k < units_view(stdin, sources@).len() ==> (#[trigger] parsed_tokens(
                        units_view(stdin, sources@)[k],
                    )) is Some
                &&& names.deep_view() == inferred_spec(units_view(stdin, sources@))
            },
            Err(e) => {
                &&& exists|k: int|
                    {
                        &&& 0 <= k < units_view(stdin, sources@).len()
                        &&& (#[trigger] parsed_tokens(units_view(stdin, sources@)[k])) is None
                        &&& forall|j: int|
                            0 <= j < k ==> parsed_tokens(units_view(stdin, sources@)[j]) is Some
                    }
                &&& e matches CargoPlayError::ParseError(_)
            },
        },
{
    let ghost us = units_view(stdin, sources@);
    let ghost f = |u: Seq<char>| unit_names(u);
    let mut raw: Vec<String> = Vec::new();
    let ghost mut k: int = 0;
    proof {
        assert(us.take(0) =~= Seq::<Seq<char>>::empty());
        assert(Seq::<Seq<char>>::empty().map_values(f) =~= Seq::<Seq<Seq<char>>>::empty());
        assert(Seq::<Seq<Seq<char>>>::empty().flatten() =~= Seq::<Seq<char>>::empty());
    }
    match stdin {
        Some(s) => {
            match tokenize(s) {
                Ok(toks) => {
                    collect_use_names(&toks, &mut raw);
                    proof {
                        broadcast use Seq::lemma_flat_map_take_append;

                        assert(us[0] == s@);
                        assert(us.take(1).flat_map(f) =~= us.take(0).flat_map(f) + f(us[0]));
                        k = 1;
                    }
                },
                Err(msg) => {
                    proof {
                        assert(us[0] == s@);
                        assert(parsed_tokens(us[0]) is None);
                    }
                    return Err(CargoPlayError::ParseError(msg));
                },
            }
        },
        None => {},
    }
    let m = sources.len();
    let mut idx: usize = 0;
    while idx < m
        invariant
            idx <= m,
            m == sources@.len(),
            us == units_view(stdin, sources@),
            k == idx + (if stdin is Some {
                1int
            } else {
                0int
            }),
            0 <= k <= us.len(),
            us.len() == m + (if stdin is Some {
                1int
            } else {
                0int
            }),
            raw.deep_view() == us.take(k).flat_map(|u: Seq<char>| unit_names(u)),
            forall|j: int| 0 <= j < k ==> (#[trigger] parsed_tokens(us[j])) is Some,
        decreases m - idx,
    {
        let s: &str = sources[idx];
        proof {
            assert(us[k] == sources@[idx as int]@);
        }
        match tokenize(s) {
            Ok(toks) => {
                collect_use_names(&toks, &mut raw);
                proof {
                    broadcast use Seq::lemma_flat_map_take_append;

                    assert(us.take(k + 1).flat_map(f) =~= us.take(k).flat_map(f) + f(us[k]));
                    k = k + 1;
                }
            },
            Err(msg) => {
                proof {
                    assert(parsed_tokens(us[k]) is None);
                }
                return Err(CargoPlayError::ParseError(msg));
            },
        }
        idx = idx + 1;
    }
    proof {
        assert(us.take(k) =~= us);
    }
    // reserved roots out, then first occurrences only
    let ghost all = us.flat_map(|u: Seq<char>| unit_names(u));
    let ghost keep = |n: Seq<char>| !is_reserved(n);
    let mut out: Vec<String> = Vec::new();
    let rn = raw.len();
    let mut i: usize = 0;
    proof {
        assert(raw.deep_view().take(0) =~= Seq::<Seq<char>>::empty());
        assert(Seq::<Seq<char>>::empty().filter(keep) =~= Seq::<Seq<char>>::empty()) by {
            reveal_with_fuel(Seq::filter, 1);
        }
    }
    while i < rn
        invariant
            i <= rn == raw@.len(),
            raw.deep_view() == all,
            out.deep_view() == dedup_first(all.take(i as int).filter(keep)),
        decreases rn - i,
    {
        let e = &raw[i];
        let ghost x = all[i as int];
        proof {
            assert(raw.deep_view()[i as int] == e@);
            assert(all.take(i + 1 as int) =~= all.take(i as int).push(x));
            crate::text::lemma_filter_push(all.take(i as int), keep, x);
        }
        if !is_reserved_exec(e.as_str()) {
            let dup = contains_name(&out, e.as_str());
            proof {
                let fs = all.take(i + 1 as int).filter(keep);
                assert(fs == all.take(i as int).filter(keep).push(x));
                assert(fs.drop_last() =~= all.take(i as int).filter(keep));
                assert(dedup_first(fs) == (if dedup_first(fs.drop_last()).contains(x) {
                    dedup_first(fs.drop_last())
                } else {
                    dedup_first(fs.drop_last()).push(x)
                }));
            }
            if !dup {
                let ghost prev_dv = out.deep_view();
                let ghost prev_view = out@;
                let name = e.clone();
                out.push(name);
                proof {
                    assert(out@ == prev_view.push(name));
                    assert(out.deep_view() =~~= prev_dv.push(x));
                }
            }
        } else {
            proof {
                assert(all.take(i + 1 as int).filter(keep) == all.take(i as int).filter(keep));
            }
        }
        i = i + 1;
    }
    proof {
        assert(all.take(rn as int) =~= all);
    }
    Ok(out)
}

} // verus!
