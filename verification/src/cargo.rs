use vstd::prelude::*;

use crate::errors::CargoPlayError;
use crate::opt::{edition_text, RustEdition};
use crate::text::{chars_string, str_chars};

verus! {

/// One character of a package name, lowered: ASCII capitals map to their
/// small forms, everything else stays.
pub open spec fn lower_char(c: char) -> char {
    if 'A' <= c && c <= 'Z' {
        (((c as u8) + 32) as u8) as char
    } else {
        c
    }
}

/// A name normalized to lowercase.
pub open spec fn lower(s: Seq<char>) -> Seq<char> {
    s.map_values(|c: char| lower_char(c))
}

/// Runtime lowering matching [`lower_char`].
fn lower_char_exec(c: char) -> (r: char)
    ensures
        r == lower_char(c),
{
    broadcast use vstd::utf8::char_is_scalar;

    let u = c as u32;
    if 65 <= u && u <= 90 {
        ((c as u8) + 32) as char
    } else {
        c
    }
}

/// Lowercases a string; see [`lower`].
pub fn to_lowercase(s: &str) -> (r: String)
    ensures
        r@ == lower(s@),
{
    let cs = str_chars(s);
    let n = cs.len();
    let mut out: Vec<char> = Vec::new();
    let mut i: usize = 0;
    while i < n
        invariant
            i <= n == cs@.len(),
            cs@ == s@,
            out@ =~= s@.take(i as int).map_values(|c: char| lower_char(c)),
        decreases n - i,
    {
        let lc = lower_char_exec(cs[i]);
        out.push(lc);
        proof {
            broadcast use Seq::lemma_map_take_succ;

        }
        i = i + 1;
    }
    proof {
        assert(s@.take(n as int) =~= s@);
    }
    chars_string(out.as_slice())
}

/// A crate name normalized for identity: hyphens and underscores are the
/// same name.
pub open spec fn norm(s: Seq<char>) -> Seq<char> {
    s.map_values(
        |c: char|
            if c == '-' {
                '_'
            } else {
                c
            },
    )
}

/// Runtime normalization matching [`norm`].
pub fn normalize_crate_name(s: &str) -> (r: String)
    ensures
        r@ == norm(s@),
{
    let cs = str_chars(s);
    let n = cs.len();
    let mut out: Vec<char> = Vec::new();
    let mut i: usize = 0;
    while i < n
        invariant
            i <= n == cs@.len(),
            cs@ == s@,
            out@ =~= s@.take(i as int).map_values(
                |c: char|
                    if c == '-' {
                        '_'
                    } else {
                        c
                    },
            ),
        decreases n - i,
    {
        let c = cs[i];
        let mapped: char = if c == '-' {
            '_'
        } else {
            c
        };
        out.push(mapped);
        proof {
            broadcast use Seq::lemma_map_take_succ;

        }
        i = i + 1;
    }
    proof {
        assert(s@.take(n as int) =~= s@);
    }
    chars_string(out.as_slice())
}

/// The `package` section of the synthesized manifest.
#[derive(Debug, Clone)]
pub struct CargoPackage {
    /// The package name, lowercased for filesystem and package-name safety.
    pub name: String,
    /// A fixed placeholder version.
    pub version: String,
    /// The manifest text of the configured edition.
    pub edition: String,
}

impl CargoPackage {
    /// Builds the package section from the raw name and the edition.
    pub fn new(name: String, edition: RustEdition) -> (r: Self)
        ensures
            r.name@ == lower(name@),
            r.version@ == "0.1.0"@,
            r.edition@ == edition_text(edition),
    {
        CargoPackage {
            name: to_lowercase(name.as_str()),
            version: "0.1.0".to_owned(),
            edition: edition.edition_str(),
        }
    }
}

/// What the manifest parser yields for one explicit dependency fragment: the
/// top-level entries' keys, each with whether its requirement is an
/// attribute table; nothing when the fragment is not well-formed manifest
/// syntax. The result depends on the fragment text alone.
pub uninterp spec fn toml_fragment(s: Seq<char>) -> Option<Seq<(Seq<char>, bool)>>;

/// Relies on toml's parser (`str::parse::<toml::Value>`): a fragment that is
/// a well-formed TOML document yields its top-level table's keys in the
/// parser's deterministic order, each marked as table-valued or not.
#[verifier::external_body]
fn parse_fragment(s: &str) -> (r: Result<Vec<(String, bool)>, String>)
    ensures
        match r {
            Ok(es) => toml_fragment(s@) == Some(es.deep_view()),
            Err(_) => toml_fragment(s@) is None,
        },
{
    match s.parse::<toml::Value>() {
        Ok(toml::Value::Table(t)) => Ok(
            t.into_iter().map(|(k, v)| {
                let tab = v.is_table();
                (k, tab)
            }).collect(),
        ),
        Ok(_) => Err("format error!".to_string()),
        Err(e) => Err(format!("{:?}", e)),
    }
}

/// The single dependency entry of an explicit fragment, when the fragment
/// parses as exactly one table-shaped entry.
pub open spec fn explicit_entry(f: Seq<char>) -> Option<(Seq<char>, bool)> {
    match toml_fragment(f) {
        Some(es) => if es.len() == 1 {
            Some(es[0])
        } else {
            None
        },
        None => None,
    }
}

/// One merged dependency of the manifest.
#[derive(Debug, Clone)]
pub struct DepEntry {
    /// The dependency's name, as declared or inferred.
    pub name: String,
    /// The manifest line for this entry: the explicit fragment verbatim, or
    /// an unconstrained requirement for an inferred name.
    pub text: String,
    /// Whether the requirement is an attribute table; table-valued entries
    /// serialize after scalar-valued ones.
    pub table: bool,
}

/// The ghost shape of a dependency entry: name, line text, table-valuedness.
pub open spec fn dep_views(deps: Seq<DepEntry>) -> Seq<(Seq<char>, Seq<char>, bool)> {
    deps.map_values(|d: DepEntry| (d.name@, d.text@, d.table))
}

/// No two entries share a normalized name.
pub open spec fn deps_wf(deps: Seq<DepEntry>) -> bool {
    forall|i: int, j: int|
        0 <= i < j < deps.len() ==> norm(#[trigger] deps[i].name@) != norm(#[trigger] deps[j].name@)
}

/// Whether some entry's normalized name is `n`.
pub open spec fn has_norm_name(views: Seq<(Seq<char>, Seq<char>, bool)>, n: Seq<char>) -> bool {
    exists|i: int| 0 <= i < views.len() && norm(#[trigger] views[i].0) == n
}

/// The manifest line of an inferred dependency: an unconstrained
/// requirement.
pub open spec fn wildcard_text(n: Seq<char>) -> Seq<char> {
    n + " = \"*\""@
}

/// Whether an inferred name survives the merge: its normalized form must
/// not collide with an existing entry.
pub open spec fn keep_fn(
    old_views: Seq<(Seq<char>, Seq<char>, bool)>,
) -> spec_fn(Seq<char>) -> bool {
    |n: Seq<char>| !has_norm_name(old_views, norm(n))
}

/// The entry an inferred name becomes.
pub open spec fn infer_entry_fn() -> spec_fn(Seq<char>) -> (Seq<char>, Seq<char>, bool) {
    |n: Seq<char>| (n, wildcard_text(n), false)
}

/// What merging inferred names into a dependency list yields: the explicit
/// entries unchanged, then every inferred name whose normalized form does
/// not collide with an explicit entry, with an unconstrained requirement.
pub open spec fn merged_dep_views(
    old_views: Seq<(Seq<char>, Seq<char>, bool)>,
    infers: Seq<Seq<char>>,
) -> Seq<(Seq<char>, Seq<char>, bool)> {
    old_views + infers.filter(keep_fn(old_views)).map_values(infer_entry_fn())
}

/// The synthesized project manifest: the package section and the merged,
/// duplicate-free dependency table.
#[derive(Debug, Clone)]
pub struct CargoManifest {
    pub package: CargoPackage,
    pub dependencies: Vec<DepEntry>,
}

impl CargoManifest {
    /// Parses the explicit dependency fragments and builds the manifest.
    /// Every fragment must parse as exactly one table-shaped entry, and no
    /// two fragments may declare the same normalized name; any violation is
    /// a fatal error for the whole run.
    pub fn new(name: String, dependencies: Vec<String>, edition: RustEdition) -> (r: Result<
        Self,
        CargoPlayError,
    >)
        ensures
            match r {
                Ok(m) => {
                    &&& forall|i: int|
                        0 <= i < dependencies@.len() ==> (#[trigger] explicit_entry(
                            dependencies.deep_view()[i],
                        )) is Some
                    &&& m.package.name@ == lower(name@)
                    &&& m.package.version@ == "0.1.0"@
                    &&& m.package.edition@ == edition_text(edition)
                    &&& m.dependencies@.len() == dependencies@.len()
                    &&& forall|i: int|
                        0 <= i < dependencies@.len() ==> {
                            let e = explicit_entry(dependencies.deep_view()[i])->0;
                            &&& (#[trigger] m.dependencies@[i]).name@ == e.0
                            &&& m.dependencies@[i].table == e.1
                            &&& m.dependencies@[i].text@ == dependencies.deep_view()[i]
                        }
                    &&& deps_wf(m.dependencies@)
                },
                Err(e) => {
                    &&& {
                        ||| exists|i: int|
                            0 <= i < dependencies@.len() && (#[trigger] explicit_entry(
                                dependencies.deep_view()[i],
                            )) is None
                        ||| exists|i: int, j: int|
                            {
                                &&& 0 <= i < j < dependencies@.len()
                                &&& (#[trigger] explicit_entry(dependencies.deep_view()[i]))
                                    is Some
                                &&& (#[trigger] explicit_entry(dependencies.deep_view()[j]))
                                    is Some
                                &&& norm((explicit_entry(dependencies.deep_view()[i])->0).0) == norm(
                                    (explicit_entry(dependencies.deep_view()[j])->0).0,
                                )
                            }
                    }
                    &&& e matches CargoPlayError::ParseError(_)
                },
            },
    {
        let n = dependencies.len();
        let mut deps: Vec<DepEntry> = Vec::new();
        let mut i: usize = 0;
        while i < n
            invariant
                i <= n == dependencies@.len(),
                deps@.len() == i,
                forall|k: int|
                    0 <= k < i ==> (#[trigger] explicit_entry(dependencies.deep_view()[k])) is Some,
                forall|k: int|
                    0 <= k < i ==> {
                        let e = explicit_entry(dependencies.deep_view()[k])->0;
                        &&& (#[trigger] deps@[k]).name@ == e.0
                        &&& deps@[k].table == e.1
                        &&& deps@[k].text@ == dependencies.deep_view()[k]
                    },
                deps_wf(deps@),
            decreases n - i,
        {
            let frag = &dependencies[i];
            proof {
                assert(dependencies.deep_view()[i as int] == frag@);
            }
            match parse_fragment(frag.as_str()) {
                Ok(entries) => {
                    if entries.len() != 1 {
                        proof {
                            assert(explicit_entry(dependencies.deep_view()[i as int]) is None);
                        }
                        return Err(CargoPlayError::ParseError("format error!".to_owned()));
                    }
                    let (key, tab) = {
                        let e = &entries[0];
                        (e.0.clone(), e.1)
                    };
                    proof {
                        assert(entries.deep_view()[0] == (key@, tab));
                        assert(explicit_entry(dependencies.deep_view()[i as int]) == Some(
                            (key@, tab),
                        ));
                    }
                    // reject a second declaration of the same normalized name
                    let normd = normalize_crate_name(key.as_str());
                    let mut k: usize = 0;
                    let dn = deps.len();
                    #[verifier::loop_isolation(true)]
                    loop
                        invariant
                            k <= dn == deps@.len(),
                            forall|p: int|
                                0 <= p < k ==> norm(#[trigger] deps@[p].name@) != norm(key@),
                            normd@ == norm(key@),
                        ensures
                            k <= dn,
                            forall|p: int|
                                0 <= p < k ==> norm(#[trigger] deps@[p].name@) != norm(key@),
                            k < dn ==> norm(deps@[k as int].name@) == norm(key@),
                        decreases dn - k,
                    {
                        if k >= dn {
                            break ;
                        }
                        let existing = normalize_crate_name(deps[k].name.as_str());
                        let eq = crate::text::str_eq(existing.as_str(), normd.as_str());
                        if eq {
                            break ;
                        }
                        k = k + 1;
                    }
                    if k < dn {
                        proof {
                            let dv = dependencies.deep_view();
                            let kk = k as int;
                            let ii = i as int;
                            assert(explicit_entry(dv[kk]) is Some);
                            assert(norm((explicit_entry(dv[kk])->0).0) == norm(
                                (explicit_entry(dv[ii])->0).0,
                            ));
                        }
                        return Err(
                            CargoPlayError::ParseError("duplicate dependency!".to_owned()),
                        );
                    }
                    let entry = DepEntry { name: key, text: frag.clone(), table: tab };
                    deps.push(entry);
                },
                Err(msg) => {
                    proof {
                        assert(toml_fragment(dependencies.deep_view()[i as int]) is None);
                        assert(explicit_entry(dependencies.deep_view()[i as int]) is None);
                    }
                    return Err(CargoPlayError::ParseError(msg));
                },
            }
            i = i + 1;
        }
        Ok(CargoManifest { package: CargoPackage::new(name, edition), dependencies: deps })
    }

    /// Merges inferred names into the dependency table. Explicit entries
    /// always win: an inferred name whose normalized form collides with an
    /// existing entry is dropped; the rest are appended, in order, with an
    /// unconstrained requirement.
    #[verifier::loop_isolation(false)]
    pub fn add_infers(&mut self, infers: Vec<String>)
        ensures
            final(self).package == old(self).package,
            dep_views(final(self).dependencies@) == merged_dep_views(
                dep_views(old(self).dependencies@),
                infers.deep_view(),
            ),
    {
        let ghost old_views = dep_views(self.dependencies@);
        let ghost iv = infers.deep_view();
        let ghost keep = keep_fn(old_views);
        let ghost to_entry = infer_entry_fn();
        let dn = self.dependencies.len();
        let n = infers.len();
        let mut i: usize = 0;
        proof {
            assert(iv.take(0) =~= Seq::<Seq<char>>::empty());
            assert(Seq::<Seq<char>>::empty().filter(keep) =~= Seq::<Seq<char>>::empty()) by {
                reveal_with_fuel(Seq::filter, 1);
            }
            assert(Seq::<Seq<char>>::empty().map_values(to_entry) =~= Seq::<
                (Seq<char>, Seq<char>, bool),
            >::empty());
            assert(dep_views(self.dependencies@) =~= old_views + iv.take(0).filter(
                keep,
            ).map_values(to_entry));
        }
        while i < n
            invariant
                i <= n,
                self.package == old(self).package,
                dep_views(self.dependencies@) == old_views + iv.take(i as int).filter(
                    keep,
                ).map_values(to_entry),
            decreases n - i,
        {
            let name = &infers[i];
            proof {
                assert(iv[i as int] == name@);
            }
            let normd = normalize_crate_name(name.as_str());
            proof {
                assert(old_views.len() == dn);
                assert forall|p: int| 0 <= p < dn implies old_views[p].0 == (
                #[trigger] self.dependencies@[p]).name@ by {
                    assert(dep_views(self.dependencies@)[p] == old_views[p]);
                }
            }
            // does an explicit entry share this normalized name?
            let mut k: usize = 0;
            let mut found = false;
            #[verifier::loop_isolation(true)]
            loop
                invariant_except_break
                    k <= dn,
                    !found,
                    dn <= self.dependencies@.len(),
                    old_views.len() == dn,
                    forall|p: int|
                        0 <= p < dn ==> old_views[p].0 == (
                        #[trigger] self.dependencies@[p]).name@,
                    normd@ == norm(name@),
                    forall|p: int| 0 <= p < k ==> norm(#[trigger] old_views[p].0) != norm(name@),
                ensures
                    found == has_norm_name(old_views, norm(name@)),
                decreases dn - k,
            {
                if k >= dn {
                    proof {
                        assert(forall|p: int|
                            0 <= p < old_views.len() ==> norm(#[trigger] old_views[p].0) != norm(
                                name@,
                            ));
                    }
                    break ;
                }
                let e = &self.dependencies[k];
                proof {
                    assert(old_views[k as int].0 == e.name@);
                }
                let existing = normalize_crate_name(e.name.as_str());
                if crate::text::str_eq(existing.as_str(), normd.as_str()) {
                    found = true;
                    proof {
                        assert(norm(old_views[k as int].0) == norm(name@));
                    }
                    break ;
                }
                k = k + 1;
            }
            let ghost prev = self.dependencies@;
            proof {
                assert(iv.take(i + 1 as int) =~= iv.take(i as int).push(name@));
                crate::text::lemma_filter_push(iv.take(i as int), keep, name@);
            }
            if !found {
                let mut text = name.clone();
                text.append(" = \"*\"");
                let entry = DepEntry { name: name.clone(), text, table: false };
                let ghost ge = entry;
                self.dependencies.push(entry);
                proof {
                    broadcast use Seq::lemma_push_map_commute;

                    assert(self.dependencies@ == prev.push(ge));
                    assert(dep_views(prev.push(ge)) =~= dep_views(prev).push(
                        (ge.name@, ge.text@, ge.table),
                    ));
                    assert((ge.name@, ge.text@, ge.table) == to_entry(name@));
                    assert(iv.take(i + 1 as int).filter(keep) == iv.take(i as int).filter(
                        keep,
                    ).push(name@));
                    assert(iv.take(i + 1 as int).filter(keep).map_values(to_entry) =~= iv.take(
                        i as int,
                    ).filter(keep).map_values(to_entry).push(to_entry(name@)));
                    assert(dep_views(self.dependencies@) =~= old_views + iv.take(
                        i + 1 as int,
                    ).filter(keep).map_values(to_entry));
                }
            } else {
                proof {
                    assert(iv.take(i + 1 as int).filter(keep) == iv.take(i as int).filter(keep)
                        + Seq::<Seq<char>>::empty());
                    assert(iv.take(i + 1 as int).filter(keep) =~= iv.take(i as int).filter(keep));
                }
            }
            i = i + 1;
        }
        proof {
            assert(iv.take(n as int) =~= iv);
        }
    }
}

/// The manifest lines of the entries of one serialization class, in order:
/// with `table` false the scalar-valued entries, with `table` true the
/// table-valued ones.
pub open spec fn dep_lines(views: Seq<(Seq<char>, Seq<char>, bool)>, table: bool) -> Seq<char>
    decreases views.len(),
{
    if views.len() == 0 {
        Seq::empty()
    } else {
        (if views[0].2 == table {
            views[0].1 + "\n"@
        } else {
            Seq::<char>::empty()
        }) + dep_lines(views.drop_first(), table)
    }
}

/// The serialized manifest: a `package` section, then the dependency table
/// with scalar-valued entries before table-valued ones.
pub open spec fn manifest_text_views(
    name: Seq<char>,
    version: Seq<char>,
    edition: Seq<char>,
    views: Seq<(Seq<char>, Seq<char>, bool)>,
) -> Seq<char> {
    "[package]\nname = \""@ + name + "\"\nversion = \""@ + version + "\"\nedition = \""@ + edition
        + "\"\n\n[dependencies]\n"@ + dep_lines(views, false) + dep_lines(views, true)
}

/// The serialized form of a manifest value.
pub open spec fn manifest_text(m: CargoManifest) -> Seq<char> {
    manifest_text_views(
        m.package.name@,
        m.package.version@,
        m.package.edition@,
        dep_views(m.dependencies@),
    )
}

/// Appends the manifest lines of one serialization class to `out`.
fn append_dep_lines(deps: &Vec<DepEntry>, table: bool, out: &mut String)
    ensures
        final(out)@ == old(out)@ + dep_lines(dep_views(deps@), table),
{
    let ghost dv = dep_views(deps@);
    let ghost base = out@;
    let n = deps.len();
    let mut i: usize = 0;
    proof {
        assert(dv.skip(0) =~= dv);
        assert(base + Seq::<char>::empty() =~= base);
        assert(base + (Seq::<char>::empty() + dep_lines(dv, table)) =~= base + dep_lines(
            dv,
            table,
        ));
    }
    while i < n
        invariant
            i <= n == deps@.len(),
            dv == dep_views(deps@),
            base + dep_lines(dv, table) == out@ + dep_lines(dv.skip(i as int), table),
        decreases n - i,
    {
        let e = &deps[i];
        proof {
            assert(dv.skip(i as int)[0] == dv[i as int]);
            assert(dv[i as int] == (e.name@, e.text@, e.table));
            assert(dv.skip(i as int).drop_first() =~= dv.skip(i + 1 as int));
        }
        if e.table == table {
            out.append(e.text.as_str());
            out.append("\n");
        }
        proof {
            assert(base + dep_lines(dv, table) =~= out@ + dep_lines(
                dv.skip(i + 1 as int),
                table,
            ));
        }
        i = i + 1;
    }
    proof {
        assert(dv.skip(n as int) =~= Seq::<(Seq<char>, Seq<char>, bool)>::empty());
        assert(out@ + Seq::<char>::empty() =~= out@);
    }
}

impl CargoManifest {
    /// Serializes the manifest; see [`manifest_text`].
    pub fn render(&self) -> (r: String)
        ensures
            r@ == manifest_text(*self),
    {
        let mut s = "[package]\nname = \"".to_owned();
        s.append(self.package.name.as_str());
        s.append("\"\nversion = \"");
        s.append(self.package.version.as_str());
        s.append("\"\nedition = \"");
        s.append(self.package.edition.as_str());
        s.append("\"\n\n[dependencies]\n");
        append_dep_lines(&self.dependencies, false, &mut s);
        append_dep_lines(&self.dependencies, true, &mut s);
        proof {
            assert(s@ =~= manifest_text(*self));
        }
        s
    }
}

/// The entries the explicit fragments declare, each carrying its fragment
/// text; meaningful when every fragment parses as a single entry.
pub open spec fn explicit_views(frags: Seq<Seq<char>>) -> Seq<(Seq<char>, Seq<char>, bool)> {
    frags.map_values(
        |f: Seq<char>| ((explicit_entry(f)->0).0, f, (explicit_entry(f)->0).1),
    )
}

/// The manifest text of one invocation: the package section from the
/// workspace identity and the edition, and the dependency table merging the
/// explicit fragments with the inferred names, explicit entries winning.
/// Fails when a fragment does not parse as a single table-shaped entry or
/// when two fragments declare the same normalized name.
pub fn cargo_toml_content(
    name: String,
    dependencies: Vec<String>,
    edition: RustEdition,
    infers: Vec<String>,
) -> (r: Result<String, CargoPlayError>)
    ensures
        match r {
            Ok(text) => {
                &&& forall|i: int|
                    0 <= i < dependencies@.len() ==> (#[trigger] explicit_entry(
                        dependencies.deep_view()[i],
                    )) is Some
                &&& text@ == manifest_text_views(
                    lower(name@),
                    "0.1.0"@,
                    edition_text(edition),
                    merged_dep_views(
                        explicit_views(dependencies.deep_view()),
                        infers.deep_view(),
                    ),
                )
            },
            Err(e) => {
                &&& {
                    ||| exists|i: int|
                        0 <= i < dependencies@.len() && (#[trigger] explicit_entry(
                            dependencies.deep_view()[i],
                        )) is None
                    ||| exists|i: int, j: int|
                        {
                            &&& 0 <= i < j < dependencies@.len()
                            &&& (#[trigger] explicit_entry(dependencies.deep_view()[i])) is Some
                            &&& (#[trigger] explicit_entry(dependencies.deep_view()[j])) is Some
                            &&& norm((explicit_entry(dependencies.deep_view()[i])->0).0) == norm(
                                (explicit_entry(dependencies.deep_view()[j])->0).0,
                            )
                        }
                }
                &&& e matches CargoPlayError::ParseError(_)
            },
        },
{
    let ghost frags = dependencies.deep_view();
    let mut manifest = match CargoManifest::new(name, dependencies, edition) {
        Ok(m) => m,
        Err(e) => {
            return Err(e);
        },
    };
    proof {
        assert(dep_views(manifest.dependencies@) =~= explicit_views(frags));
    }
    manifest.add_infers(infers);
    Ok(manifest.render())
}

/// Explicit wins over inferred: merging never changes an explicit entry and
/// never adds an entry whose normalized name an explicit entry already
/// holds, so a name both declared and inferred keeps its explicit
/// requirement.
pub proof fn lemma_explicit_wins(
    old_views: Seq<(Seq<char>, Seq<char>, bool)>,
    infers: Seq<Seq<char>>,
)
    ensures
        merged_dep_views(old_views, infers).take(old_views.len() as int) == old_views,
        forall|k: int|
            old_views.len() <= k < merged_dep_views(old_views, infers).len() ==> !has_norm_name(
                old_views,
                norm(#[trigger] merged_dep_views(old_views, infers)[k].0),
            ),
{
    broadcast use Seq::lemma_filter_pred;

    let merged = merged_dep_views(old_views, infers);
    let kept = infers.filter(keep_fn(old_views));
    assert(merged.take(old_views.len() as int) =~= old_views);
    assert forall|k: int| old_views.len() <= k < merged.len() implies !has_norm_name(
        old_views,
        norm(#[trigger] merged[k].0),
    ) by {
        let p = k - old_views.len();
        assert(merged[k] == kept.map_values(infer_entry_fn())[p]);
        assert(kept.map_values(infer_entry_fn())[p] == (kept[p], wildcard_text(kept[p]), false));
        assert(keep_fn(old_views)(kept[p]));
    }
}

} // verus!
