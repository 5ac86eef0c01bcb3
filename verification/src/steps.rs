use vstd::prelude::*;

use crate::errors::CargoPlayError;
use crate::opt::Opt;
use crate::text::{
    chars_string, lines_spec, split_lines, str_chars, subvec, trim_start_from, trim_start_spec,
};

verus! {

/// A line the header scan skips before the directive run: a shebang line or
/// an empty line.
pub open spec fn is_shebang_or_blank(l: Seq<char>) -> bool {
    l.len() == 0 || (l.len() >= 2 && l[0] == '#' && l[1] == '!')
}

/// A dependency directive line: one starting with the `//#` sigil.
pub open spec fn is_header_line(l: Seq<char>) -> bool {
    l.len() >= 3 && l[0] == '/' && l[1] == '/' && l[2] == '#'
}

/// The directive text of a header line: the sigil removed, then leading
/// whitespace removed.
pub open spec fn header_payload(l: Seq<char>) -> Seq<char> {
    trim_start_spec(l.skip(3))
}

/// Drops the leading shebang and blank lines of a unit.
pub open spec fn drop_leading(ls: Seq<Seq<char>>) -> Seq<Seq<char>>
    decreases ls.len(),
{
    if ls.len() > 0 && is_shebang_or_blank(ls[0]) {
        drop_leading(ls.drop_first())
    } else {
        ls
    }
}

/// The maximal unbroken run of directive lines at the front of `ls`.
pub open spec fn take_headers(ls: Seq<Seq<char>>) -> Seq<Seq<char>>
    decreases ls.len(),
{
    if ls.len() > 0 && is_header_line(ls[0]) {
        seq![ls[0]] + take_headers(ls.drop_first())
    } else {
        Seq::empty()
    }
}

/// The nonempty directive payloads of a run of header lines, in order.
pub open spec fn header_payloads(ls: Seq<Seq<char>>) -> Seq<Seq<char>> {
    ls.map_values(|l: Seq<char>| header_payload(l)).filter(|p: Seq<char>| p.len() > 0)
}

/// The explicit dependency directives of one source unit: skip a leading
/// shebang line and blank lines, take the unbroken run of `//#` lines, strip
/// the sigil and leading whitespace, and drop empty results.
pub open spec fn unit_headers(s: Seq<char>) -> Seq<Seq<char>> {
    header_payloads(take_headers(drop_leading(lines_spec(s))))
}

/// The flat, order-preserving, duplicate-permitting concatenation of all
/// units' directives.
pub open spec fn extract_headers_spec(units: Seq<Seq<char>>) -> Seq<Seq<char>> {
    units.flat_map(|u: Seq<char>| unit_headers(u))
}

/// The ordered source units of one invocation: the standard-input unit, if
/// any, followed by the file-backed units.
pub open spec fn units_view(stdin: Option<&str>, sources: Seq<&str>) -> Seq<Seq<char>> {
    (match stdin {
        Some(s) => seq![s@],
        None => Seq::<Seq<char>>::empty(),
    }) + sources.map_values(|s: &str| s@)
}

/// Appends the directives of one unit to `out`.
fn extract_unit_into(s: &str, out: &mut Vec<String>)
    ensures
        final(out).deep_view() == old(out).deep_view() + unit_headers(s@),
{
    let ghost out_base = out.deep_view();
    let cs = str_chars(s);
    let lines = split_lines(&cs);
    let ghost l = lines.deep_view();
    let n = lines.len();
    let mut i: usize = 0;
    proof {
        assert(l.skip(0) =~= l);
    }
    loop
        invariant
            i <= n == l.len(),
            l == lines.deep_view(),
            lines@.len() == n,
            drop_leading(l) == drop_leading(l.skip(i as int)),
        ensures
            i <= n,
            drop_leading(l) == l.skip(i as int),
        decreases n - i,
    {
        if i >= n {
            proof {
                assert(l.skip(i as int) =~= Seq::<Seq<char>>::empty());
            }
            break ;
        }
        let line = &lines[i];
        proof {
            assert(l[i as int] =~= lines@[i as int]@);
            assert(l.skip(i as int)[0] == l[i as int]);
        }
        let skip_it = line.len() == 0 || (line.len() >= 2 && line[0] == '#' && line[1] == '!');
        if !skip_it {
            proof {
                assert(!is_shebang_or_blank(l.skip(i as int)[0]));
            }
            break ;
        }
        proof {
            assert(is_shebang_or_blank(l.skip(i as int)[0]));
            assert(l.skip(i as int).drop_first() =~= l.skip(i + 1 as int));
        }
        i = i + 1;
    }
    let ghost i0 = i as int;
    loop
        invariant
            0 <= i0 <= i as int <= n as int,
            n == l.len() && l == lines.deep_view() && lines@.len() == n,
            drop_leading(l) == l.skip(i0),
            take_headers(l.skip(i0)) == l.subrange(i0, i as int) + take_headers(l.skip(i as int)),
            out.deep_view() == out_base + header_payloads(l.subrange(i0, i as int)),
        ensures
            out.deep_view() == out_base + header_payloads(take_headers(drop_leading(l))),
        decreases n - i,
    {
        if i >= n {
            proof {
                assert(l.skip(i as int) =~= Seq::<Seq<char>>::empty());
                assert(l.subrange(i0, i as int) + take_headers(l.skip(i as int)) =~= l.subrange(
                    i0,
                    i as int,
                ));
            }
            break ;
        }
        let line = &lines[i];
        proof {
            assert(l[i as int] =~= lines@[i as int]@);
            assert(l.skip(i as int)[0] == l[i as int]);
        }
        let header = line.len() >= 3 && line[0] == '/' && line[1] == '/' && line[2] == '#';
        if !header {
            proof {
                assert(!is_header_line(l.skip(i as int)[0]));
                assert(take_headers(l.skip(i as int)) =~= Seq::<Seq<char>>::empty());
                assert(l.subrange(i0, i as int) + take_headers(l.skip(i as int)) =~= l.subrange(
                    i0,
                    i as int,
                ));
            }
            break ;
        }
        let j = trim_start_from(line, 3);
        let piece = subvec(line, j, line.len());
        proof {
            assert(line@.subrange(3, line@.len() as int) =~= l[i as int].skip(3));
            assert(piece@ == header_payload(l[i as int]));
        }
        let ghost prev_dv = out.deep_view();
        let ghost prev_view = out@;
        if piece.len() > 0 {
            let text = chars_string(piece.as_slice());
            out.push(text);
            proof {
                assert(out@ == prev_view.push(text));
                assert(out.deep_view() =~~= prev_dv.push(piece@));
            }
        }
        proof {
            let pay = |p: Seq<char>| header_payload(p);
            let nonempty = |p: Seq<char>| p.len() > 0;
            let before = l.subrange(i0, i as int);
            let after = l.subrange(i0, i + 1 as int);
            assert(after =~= before.push(l[i as int]));
            broadcast use Seq::lemma_push_map_commute;

            assert(after.map_values(pay) =~= before.map_values(pay).push(
                header_payload(l[i as int]),
            ));
            crate::text::lemma_filter_push(
                before.map_values(pay),
                nonempty,
                header_payload(l[i as int]),
            );
            if piece@.len() > 0 {
                assert(out.deep_view() == prev_dv.push(piece@));
                assert(header_payloads(after) =~= header_payloads(before).push(piece@));
            } else {
                assert(header_payloads(after) =~= header_payloads(before));
            }
            assert(out.deep_view() == out_base + header_payloads(after));
            // the run of header lines extends by one
            assert(is_header_line(l.skip(i as int)[0]));
            assert(l.skip(i as int).drop_first() =~= l.skip(i + 1 as int));
            assert(take_headers(l.skip(i as int)) == seq![l[i as int]] + take_headers(
                l.skip(i + 1 as int),
            ));
            assert(l.subrange(i0, i as int) + (seq![l[i as int]] + take_headers(
                l.skip(i + 1 as int),
            )) =~= after + take_headers(l.skip(i + 1 as int)));
        }
        i = i + 1;
    }
}

/// Pulls the explicit dependency directives out of every source unit, the
/// standard-input unit first: per unit, the run of `//#` lines after an
/// optional shebang line and blank lines, with the sigil and surrounding
/// blanks removed and empty directives dropped.
pub fn extract_headers(stdin: Option<&str>, sources: &[&str]) -> (r: Vec<String>)
    ensures
        r.deep_view() == extract_headers_spec(units_view(stdin, sources@)),
{
    let ghost us = units_view(stdin, sources@);
    let ghost f = |u: Seq<char>| unit_headers(u);
    let mut out: Vec<String> = Vec::new();
    let ghost mut k: int = 0;
    proof {
        assert(us.take(0) =~= Seq::<Seq<char>>::empty());
        assert(Seq::<Seq<char>>::empty().map_values(f) =~= Seq::<Seq<Seq<char>>>::empty());
        assert(Seq::<Seq<Seq<char>>>::empty().flatten() =~= Seq::<Seq<char>>::empty());
        assert(extract_headers_spec(us.take(0)) =~= Seq::<Seq<char>>::empty());
    }
    match stdin {
        Some(s) => {
            extract_unit_into(s, &mut out);
            proof {
                broadcast use Seq::lemma_flat_map_take_append;

                assert(us[0] == s@);
                assert(us.take(1).flat_map(f) =~= us.take(0).flat_map(f) + f(us[0]));
                k = 1;
            }
        },
        None => {},
    }
    let m = sources.len();
    let mut idx: usize = 0;
    while idx < m
        invariant
            idx <= m,
            m == sources@.len(),
            us == units_view(stdin, sources@),
            k == idx + (if stdin is Some {
                1int
            } else {
                0int
            }),
            0 <= k <= us.len(),
            us.len() == m + (if stdin is Some {
                1int
            } else {
                0int
            }),
            out.deep_view() == us.take(k).flat_map(|u: Seq<char>| unit_headers(u)),
        decreases m - idx,
    {
        let s: &str = sources[idx];
        proof {
            assert(us[k] == sources@[idx as int]@);
        }
        extract_unit_into(s, &mut out);
        proof {
            broadcast use Seq::lemma_flat_map_take_append;

            assert(us.take(k + 1).flat_map(f) =~= us.take(k).flat_map(f) + f(us[k]));
            k = k + 1;
        }
        idx = idx + 1;
    }
    proof {
        assert(us.take(k) =~= us);
    }
    out
}

/// A path under a root directory.
pub open spec fn join_path(root: Seq<char>, name: Seq<char>) -> Seq<char> {
    root + "/"@ + name
}

/// The workspace directory for the given name under the threaded
/// temporary root.
pub fn temp_dir(root: &str, name: &str) -> (r: String)
    ensures
        r@ == join_path(root@, name@),
{
    let mut s = root.to_owned();
    s.append("/");
    s.append(name);
    proof {
        assert(s@ =~= join_path(root@, name@));
    }
    s
}

/// The program's package name: the workspace identity under a fixed prefix.
pub fn package_name(hash: &str) -> (r: String)
    ensures
        r@ == "p"@ + hash@,
{
    let mut s = "p".to_owned();
    s.append(hash);
    s
}

/// Where a previously built binary lives inside a workspace, for the given
/// build mode.
pub open spec fn cached_binary_path_spec(
    workspace: Seq<char>,
    release: bool,
    package: Seq<char>,
) -> Seq<char> {
    workspace + "/target/"@ + (if release {
        "release"@
    } else {
        "debug"@
    }) + "/"@ + crate::cargo::lower(package)
}

/// Runtime form of [`cached_binary_path_spec`].
pub fn cached_binary_path(workspace: &str, release: bool, package: &str) -> (r: String)
    ensures
        r@ == cached_binary_path_spec(workspace@, release, package@),
{
    let mut s = workspace.to_owned();
    s.append("/target/");
    if release {
        s.append("release");
    } else {
        s.append("debug");
    }
    s.append("/");
    let low = crate::cargo::to_lowercase(package);
    s.append(low.as_str());
    proof {
        assert(s@ =~= cached_binary_path_spec(workspace@, release, package@));
    }
    s
}

/// What `Path::parent` yields for a path, by its text alone.
pub uninterp spec fn parent_dir(p: Seq<char>) -> Option<Seq<char>>;

/// Relies on `std::path::Path::parent`: the containing directory of a path,
/// a function of the path text alone.
#[verifier::external_body]
fn path_parent(p: &str) -> (r: Option<String>)
    ensures
        match r {
            Some(d) => parent_dir(p@) == Some(d@),
            None => parent_dir(p@) is None,
        },
{
    std::path::Path::new(p).parent().map(|q| q.to_string_lossy().into_owned())
}

/// What `pathdiff::diff_paths` yields, by the two path texts alone.
pub uninterp spec fn rel_path(path: Seq<char>, base: Seq<char>) -> Option<Seq<char>>;

/// Relies on `pathdiff::diff_paths`: the relative path that reaches `path`
/// from `base`, when one exists; a function of the two texts alone.
#[verifier::external_body]
fn diff_paths(path: &str, base: &str) -> (r: Option<String>)
    ensures
        match r {
            Some(d) => rel_path(path@, base@) == Some(d@),
            None => rel_path(path@, base@) is None,
        },
{
    pathdiff::diff_paths(path, base).map(|q| q.to_string_lossy().into_owned())
}

/// The base directory the non-entry units' relative paths are computed
/// against: the working directory for a transient entry unit, else the
/// entry unit's containing directory.
pub open spec fn copy_base(stdin: bool, cwd: Seq<char>, files: Seq<Seq<char>>) -> Option<
    Seq<char>,
> {
    if stdin {
        Some(cwd)
    } else if files.len() > 0 {
        parent_dir(files[0])
    } else {
        None
    }
}

/// One planned write: the source unit at `index` in the input order goes to
/// `dest`, a path relative to the workspace's source root.
#[derive(Debug, Clone)]
pub struct CopyDest {
    pub dest: String,
    pub index: usize,
}

/// A successful materialization plan: with a base directory, one entry per
/// non-entry unit, in order, each carrying the unit's relative path against
/// the base; with none, an empty plan.
pub open spec fn copy_plan_ok(
    stdin: bool,
    cwd: Seq<char>,
    files: Seq<Seq<char>>,
    plan: Seq<CopyDest>,
) -> bool {
    let start: int = if stdin {
        0int
    } else {
        1int
    };
    match copy_base(stdin, cwd, files) {
        Some(b) => {
            &&& plan.len() == files.len() - start
            &&& forall|k: int|
                0 <= k < plan.len() ==> {
                    &&& (#[trigger] plan[k]).index == k + start
                    &&& rel_path(files[k + start], b) is Some
                    &&& plan[k].dest@ == rel_path(files[k + start], b)->0
                }
        },
        None => plan.len() == 0,
    }
}

/// A failed materialization plan: some non-entry unit has no relative path
/// against the base directory, and the error names it.
pub open spec fn copy_plan_err(
    stdin: bool,
    cwd: Seq<char>,
    files: Seq<Seq<char>>,
    e: CargoPlayError,
) -> bool {
    match copy_base(stdin, cwd, files) {
        Some(b) => exists|k: int|
            {
                &&& (if stdin {
                    0int
                } else {
                    1int
                }) <= k < files.len()
                &&& rel_path(#[trigger] files[k], b) is None
                &&& (e matches CargoPlayError::DiffPathError(t) && t@ == files[k])
            },
        None => false,
    }
}

/// Plans the materialization of the non-entry units. The entry unit (the
/// standard-input unit, else the first file) always goes to the fixed
/// filename `main.rs` in the source root; every other file-backed unit goes
/// to its path relative to the entry unit's base directory, preserving
/// sibling relationships. A unit with no such relative path is a fatal
/// error. Without a base directory no non-entry unit is planned.
pub fn plan_copy(stdin: bool, cwd: &str, files: &Vec<String>) -> (r: Result<
    Vec<CopyDest>,
    CargoPlayError,
>)
    ensures
        match r {
            Ok(plan) => copy_plan_ok(stdin, cwd@, files.deep_view(), plan@),
            Err(e) => copy_plan_err(stdin, cwd@, files.deep_view(), e),
        },
{
    let mut plan: Vec<CopyDest> = Vec::new();
    let base: String = if stdin {
        cwd.to_owned()
    } else if files.len() > 0 {
        match path_parent(files[0].as_str()) {
            Some(b) => b,
            None => {
                proof {
                    assert(files.deep_view()[0] == files@[0]@);
                    assert(copy_plan_ok(stdin, cwd@, files.deep_view(), plan@));
                }
                return Ok(plan);
            },
        }
    } else {
        proof {
            assert(copy_plan_ok(stdin, cwd@, files.deep_view(), plan@));
        }
        return Ok(plan);
    };
    proof {
        assert(copy_base(stdin, cwd@, files.deep_view()) == Some(base@));
    }
    let start: usize = if stdin {
        0
    } else {
        1
    };
    let n = files.len();
    let mut k: usize = start;
    while k < n
        invariant
            start <= k,
            k <= n || k == start,
            n == files@.len(),
            start == (if stdin {
                0int
            } else {
                1int
            }),
            copy_base(stdin, cwd@, files.deep_view()) == Some(base@),
            plan@.len() == k - start,
            forall|p: int|
                0 <= p < plan@.len() ==> {
                    &&& (#[trigger] plan@[p]).index == p + start
                    &&& rel_path(files.deep_view()[p + start], base@) is Some
                    &&& plan@[p].dest@ == rel_path(files.deep_view()[p + start], base@)->0
                },
        decreases n - k,
    {
        let f = &files[k];
        proof {
            assert(files.deep_view()[k as int] == f@);
        }
        match diff_paths(f.as_str(), base.as_str()) {
            Some(part) => {
                plan.push(CopyDest { dest: part, index: k });
            },
            None => {
                let err = CargoPlayError::DiffPathError(f.clone());
                proof {
                    assert(copy_plan_err(stdin, cwd@, files.deep_view(), err));
                }
                return Err(err);
            },
        }
        k = k + 1;
    }
    proof {
        assert(k == n);
        assert(copy_plan_ok(stdin, cwd@, files.deep_view(), plan@));
    }
    Ok(plan)
}

/// An ASCII whitespace character, as the raw-flags split uses it.
pub open spec fn is_ascii_ws(c: char) -> bool {
    c == ' ' || c == '\t' || c == '\n' || c == '\u{c}' || c == '\r'
}

/// The maximal runs of non-whitespace characters of `s`, in order.
pub open spec fn split_ws(s: Seq<char>) -> Seq<Seq<char>>
    decreases s.len(),
{
    if s.len() == 0 {
        Seq::empty()
    } else if is_ascii_ws(s[0]) {
        split_ws(s.drop_first())
    } else {
        let rest = split_ws(s.drop_first());
        if s.len() >= 2 && !is_ascii_ws(s[1]) {
            seq![seq![s[0]] + rest[0]] + rest.drop_first()
        } else {
            seq![seq![s[0]]] + rest
        }
    }
}

proof fn lemma_split_ws_word(s: Seq<char>, k: int)
    requires
        0 < k <= s.len(),
        forall|j: int| 0 <= j < k ==> !is_ascii_ws(#[trigger] s[j]),
        k == s.len() || is_ascii_ws(s[k]),
    ensures
        split_ws(s) =~~= seq![s.take(k)] + split_ws(s.skip(k)),
    decreases k,
{
    if k == 1 {
        if s.len() >= 2 && !is_ascii_ws(s[1]) {
        } else {
            assert(s.take(1) =~= seq![s[0]]);
            assert(s.skip(1) =~= s.drop_first());
        }
    } else {
        let t = s.drop_first();
        lemma_split_ws_word(t, k - 1);
        assert(t.take(k - 1) =~= s.take(k).drop_first());
        assert(seq![s[0]] + s.take(k).drop_first() =~= s.take(k));
        assert(t.skip(k - 1) =~= s.skip(k));
    }
}

/// Splits a raw extra-flags string on ASCII whitespace; see [`split_ws`].
pub fn split_ws_exec(s: &str) -> (r: Vec<String>)
    ensures
        r.deep_view() == split_ws(s@),
{
    let cs = str_chars(s);
    let n = cs.len();
    let mut out: Vec<String> = Vec::new();
    let mut i: usize = 0;
    let ghost mut done: Seq<Seq<char>> = Seq::empty();
    proof {
        assert(cs@.skip(0) =~= cs@);
        assert(Seq::<Seq<char>>::empty() + split_ws(cs@) =~= split_ws(cs@));
        assert(out.deep_view() =~= done);
    }
    while i < n
        invariant
            i <= n == cs@.len(),
            cs@ == s@,
            split_ws(s@) == done + split_ws(cs@.skip(i as int)),
            out.deep_view() == done,
        decreases n - i,
    {
        if is_ws_word_char(cs[i]) {
            // start of a word: find its end
            let start = i;
            let mut j = i;
            #[verifier::loop_isolation(true)]
            loop
                invariant_except_break
                    start < n,
                    !is_ascii_ws(cs@[start as int]),
                    start <= j <= n == cs@.len(),
                    forall|p: int| start <= p < j ==> !is_ascii_ws(#[trigger] cs@[p]),
                ensures
                    start <= j <= n,
                    forall|p: int| start <= p < j ==> !is_ascii_ws(#[trigger] cs@[p]),
                    j == n || is_ascii_ws(cs@[j as int]),
                    j > start,
                decreases n - j,
            {
                if j >= n {
                    break ;
                }
                if !is_ws_word_char(cs[j]) {
                    break ;
                }
                j = j + 1;
            }
            let word = subvec(&cs, start, j);
            let text = chars_string(word.as_slice());
            let ghost prev_dv = out.deep_view();
            let ghost prev_view = out@;
            out.push(text);
            proof {
                let sfx = cs@.skip(start as int);
                lemma_split_ws_word(sfx, j - start);
                assert(sfx.take(j - start) =~= cs@.subrange(start as int, j as int));
                assert(sfx.skip(j - start) =~= cs@.skip(j as int));
                assert(out@ == prev_view.push(text));
                assert(out.deep_view() =~~= prev_dv.push(word@));
                done = done.push(word@);
                assert(out.deep_view() =~= done);
                assert(split_ws(s@) =~= done + split_ws(cs@.skip(j as int)));
            }
            i = j;
        } else {
            proof {
                assert(cs@.skip(i as int)[0] == cs@[i as int]);
                assert(cs@.skip(i as int).drop_first() =~= cs@.skip(i + 1 as int));
            }
            i = i + 1;
        }
    }
    proof {
        assert(cs@.skip(n as int) =~= Seq::<char>::empty());
        assert(done + Seq::<Seq<char>>::empty() =~= done);
    }
    out
}

/// Whether a character continues a word of the raw-flags split.
fn is_ws_word_char(c: char) -> (r: bool)
    ensures
        r == !is_ascii_ws(c),
{
    !(c == ' ' || c == '\t' || c == '\n' || c == '\u{c}' || c == '\r')
}

/// The toolchain subcommand of one invocation: test and check mode first,
/// then a custom mode override, else a plain run.
pub open spec fn subcommand_spec(opt: Opt) -> Seq<char> {
    if opt.test {
        "test"@
    } else if opt.check {
        "check"@
    } else {
        match opt.mode {
            Some(m) => m@,
            None => "run"@,
        }
    }
}

/// The full toolchain argument list of a build: an optional toolchain
/// override, the subcommand, the manifest path, the raw extra flags split
/// on whitespace, the optional release and quiet flags, one `-v` per
/// verbosity step, and the pass-through program arguments after a
/// separator.
pub open spec fn cargo_args_spec(opt: Opt, project: Seq<char>) -> Seq<Seq<char>> {
    (match opt.toolchain {
        Some(t) => seq!["+"@ + t@],
        None => Seq::<Seq<char>>::empty(),
    }) + seq![subcommand_spec(opt), "--manifest-path"@, project + "/Cargo.toml"@] + (
    match opt.cargo_option {
        Some(co) => split_ws(co@),
        None => Seq::<Seq<char>>::empty(),
    }) + (if opt.release {
        seq!["--release"@]
    } else {
        Seq::<Seq<char>>::empty()
    }) + (if opt.quiet {
        seq!["--quiet"@]
    } else {
        Seq::<Seq<char>>::empty()
    }) + Seq::new(opt.verbose as nat, |i: int| "-v"@) + seq!["--"@] + opt.args.deep_view()
}

/// Builds the toolchain argument list; see [`cargo_args_spec`].
#[verifier::rlimit(100)]
pub fn run_cargo_args(opt: &Opt, project: &str) -> (r: Vec<String>)
    ensures
        r.deep_view() == cargo_args_spec(*opt, project@),
{
    let mut out: Vec<String> = Vec::new();
    let ghost mut acc: Seq<Seq<char>> = Seq::empty();
    proof {
        assert(out.deep_view() =~= acc);
    }
    match &opt.toolchain {
        Some(t) => {
            let mut s = "+".to_owned();
            s.append(t.as_str());
            let ghost prev = out.deep_view();
            out.push(s);
            proof {
                assert(out.deep_view() =~~= prev.push("+"@ + t@));
                acc = acc.push("+"@ + t@);
            }
        },
        None => {},
    }
    let sub: String = if opt.test {
        "test".to_owned()
    } else if opt.check {
        "check".to_owned()
    } else {
        match &opt.mode {
            Some(m) => m.clone(),
            None => "run".to_owned(),
        }
    };
    proof {
        assert(sub@ == subcommand_spec(*opt));
    }
    let ghost prev1 = out.deep_view();
    out.push(sub);
    out.push("--manifest-path".to_owned());
    let mut mp = project.to_owned();
    mp.append("/Cargo.toml");
    out.push(mp);
    proof {
        assert(out.deep_view() =~~= prev1.push(subcommand_spec(*opt)).push(
            "--manifest-path"@,
        ).push(project@ + "/Cargo.toml"@));
        acc = acc.push(subcommand_spec(*opt)).push("--manifest-path"@).push(
            project@ + "/Cargo.toml"@,
        );
        assert(out.deep_view() == acc);
    }
    match &opt.cargo_option {
        Some(co) => {
            let words = split_ws_exec(co.as_str());
            let wn = words.len();
            let mut wi: usize = 0;
            while wi < wn
                invariant
                    wi <= wn == words@.len(),
                    words.deep_view() == split_ws(co@),
                    out.deep_view() == acc + words.deep_view().take(wi as int),
                decreases wn - wi,
            {
                let w = words[wi].clone();
                proof {
                    assert(w@ == words.deep_view()[wi as int]);
                }
                let ghost prev = out.deep_view();
                out.push(w);
                proof {
                    assert(out.deep_view() =~~= prev.push(words.deep_view()[wi as int]));
                    assert(words.deep_view().take(wi + 1 as int) =~= words.deep_view().take(
                        wi as int,
                    ).push(words.deep_view()[wi as int]));
                    assert(out.deep_view() =~= acc + words.deep_view().take(wi + 1 as int));
                }
                wi = wi + 1;
            }
            proof {
                assert(words.deep_view().take(wn as int) =~= words.deep_view());
                acc = acc + split_ws(co@);
                assert(out.deep_view() == acc);
            }
        },
        None => {
            proof {
                assert(acc + Seq::<Seq<char>>::empty() =~= acc);
            }
        },
    }
    if opt.release {
        let ghost prev = out.deep_view();
        out.push("--release".to_owned());
        proof {
            assert(out.deep_view() =~~= prev.push("--release"@));
            acc = acc.push("--release"@);
        }
    }
    if opt.quiet {
        let ghost prev = out.deep_view();
        out.push("--quiet".to_owned());
        proof {
            assert(out.deep_view() =~~= prev.push("--quiet"@));
            acc = acc.push("--quiet"@);
        }
    }
    let ghost acc_v = acc;
    let vn: u16 = opt.verbose;
    let mut vi: u16 = 0;
    while vi < vn
        invariant
            vi <= vn,
            vn == opt.verbose,
            out.deep_view() == acc_v + Seq::new(vi as nat, |i: int| "-v"@),
        decreases vn - vi,
    {
        let ghost prev = out.deep_view();
        out.push("-v".to_owned());
        proof {
            assert(out.deep_view() =~~= prev.push("-v"@));
            assert(Seq::new((vi + 1) as nat, |i: int| "-v"@) =~= Seq::new(
                vi as nat,
                |i: int| "-v"@,
            ).push("-v"@));
            assert(out.deep_view() =~= acc_v + Seq::new((vi + 1) as nat, |i: int| "-v"@));
        }
        vi = vi + 1;
    }
    proof {
        acc = acc_v + Seq::new(opt.verbose as nat, |i: int| "-v"@);
        assert(out.deep_view() == acc);
    }
    let ghost prev2 = out.deep_view();
    out.push("--".to_owned());
    proof {
        assert(out.deep_view() =~~= prev2.push("--"@));
        acc = acc.push("--"@);
    }
    let ghost acc_a = acc;
    let an = opt.args.len();
    let mut ai: usize = 0;
    while ai < an
        invariant
            ai <= an == opt.args@.len(),
            out.deep_view() == acc_a + opt.args.deep_view().take(ai as int),
        decreases an - ai,
    {
        let a = opt.args[ai].clone();
        proof {
            assert(a@ == opt.args.deep_view()[ai as int]);
        }
        let ghost prev = out.deep_view();
        out.push(a);
        proof {
            assert(out.deep_view() =~~= prev.push(opt.args.deep_view()[ai as int]));
            assert(opt.args.deep_view().take(ai + 1 as int) =~= opt.args.deep_view().take(
                ai as int,
            ).push(opt.args.deep_view()[ai as int]));
            assert(out.deep_view() =~= acc_a + opt.args.deep_view().take(ai + 1 as int));
        }
        ai = ai + 1;
    }
    proof {
        assert(opt.args.deep_view().take(an as int) =~= opt.args.deep_view());
        assert(out.deep_view() =~~= cargo_args_spec(*opt, project@));
    }
    out
}

/// The whole-binary cache applies: caching is enabled, the workspace is
/// already there, and a previously built binary was found at its
/// mode-specific path.
pub open spec fn cache_hit(opt: Opt, workspace_exists: bool, binary_exists: bool) -> bool {
    opt.cached && workspace_exists && binary_exists
}

/// What the build dispatcher decides to do.
#[derive(Debug, Clone)]
pub enum BuildAction {
    /// Execute the previously built binary directly, bypassing the
    /// toolchain.
    RunCached { bin: String },
    /// Copy the materialized workspace to the export destination and do not
    /// build.
    Export { dest: String },
    /// Invoke the toolchain with the given arguments.
    Build { args: Vec<String> },
}

/// The four-way dispatch decision, evaluated once per invocation: a cache
/// hit short-circuits everything; an export request copies the workspace,
/// failing when the destination already exists as a directory; otherwise
/// the toolchain is invoked.
pub fn decide_action(
    opt: &Opt,
    workspace: &str,
    package: &str,
    workspace_exists: bool,
    binary_exists: bool,
    save_dest_is_dir: bool,
) -> (r: Result<BuildAction, CargoPlayError>)
    ensures
        cache_hit(*opt, workspace_exists, binary_exists) ==> (r matches Ok(
            BuildAction::RunCached { bin },
        ) && bin@ == cached_binary_path_spec(workspace@, opt.release, package@)),
        match r {
            Ok(a) => match a {
                BuildAction::RunCached { bin } => {
                    &&& cache_hit(*opt, workspace_exists, binary_exists)
                    &&& bin@ == cached_binary_path_spec(workspace@, opt.release, package@)
                },
                BuildAction::Export { dest } => {
                    &&& !cache_hit(*opt, workspace_exists, binary_exists)
                    &&& (opt.save matches Some(d) && dest@ == d@)
                    &&& !save_dest_is_dir
                },
                BuildAction::Build { args } => {
                    &&& !cache_hit(*opt, workspace_exists, binary_exists)
                    &&& opt.save is None
                    &&& args.deep_view() == cargo_args_spec(*opt, workspace@)
                },
            },
            Err(e) => {
                &&& !cache_hit(*opt, workspace_exists, binary_exists)
                &&& save_dest_is_dir
                &&& (opt.save matches Some(d) && (e matches CargoPlayError::PathExistError(t)
                    && t@ == d@))
            },
        },
{
    if opt.cached && workspace_exists && binary_exists {
        let bin = cached_binary_path(workspace, opt.release, package);
        return Ok(BuildAction::RunCached { bin });
    }
    match &opt.save {
        Some(d) => {
            if save_dest_is_dir {
                Err(CargoPlayError::PathExistError(d.clone()))
            } else {
                Ok(BuildAction::Export { dest: d.clone() })
            }
        },
        None => {
            let args = run_cargo_args(opt, workspace);
            Ok(BuildAction::Build { args })
        },
    }
}

/// The invocation's outcome for a finished child process: its exit code
/// forwarded verbatim, or the fixed sentinel when the child was terminated
/// without one.
pub fn outcome_code(code: Option<i32>) -> (r: i32)
    ensures
        match code {
            Some(c) => r == c,
            None => r == -1,
        },
{
    match code {
        Some(c) => c,
        None => -1,
    }
}

} // verus!
