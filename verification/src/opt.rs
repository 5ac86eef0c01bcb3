use vstd::prelude::*;

use crate::errors::CargoPlayError;
use crate::text::str_chars;
use vstd::multiset::Multiset;
use vstd::relations::{sorted_by, total_ordering};
use vstd::seq_lib::lemma_sorted_unique;

verus! {

/// The closed set of accepted Rust editions.
#[derive(Clone, Copy, Debug, PartialEq, Eq, Structural)]
pub enum RustEdition {
    E2015,
    E2018,
}

/// The manifest text of an edition.
pub open spec fn edition_text(e: RustEdition) -> Seq<char> {
    match e {
        RustEdition::E2015 => "2015"@,
        RustEdition::E2018 => "2018"@,
    }
}

impl RustEdition {
    /// Parses an edition string; every value outside the accepted set is a
    /// fatal configuration error.
    pub fn from_str(s: &str) -> (r: Result<RustEdition, CargoPlayError>)
        ensures
            match r {
                Ok(e) => (s@ == "2015"@ && e == RustEdition::E2015) || (s@ == "2018"@ && e
                    == RustEdition::E2018),
                Err(err) => {
                    &&& s@ != "2015"@
                    &&& s@ != "2018"@
                    &&& (err matches CargoPlayError::InvalidEdition(t) && t@ == s@)
                },
            },
    {
        if crate::text::str_eq(s, "2018") {
            Ok(RustEdition::E2018)
        } else if crate::text::str_eq(s, "2015") {
            Ok(RustEdition::E2015)
        } else {
            Err(CargoPlayError::InvalidEdition(s.to_owned()))
        }
    }

    /// The edition as manifest text.
    pub fn edition_str(&self) -> (r: String)
        ensures
            r@ == edition_text(*self),
    {
        match self {
            RustEdition::E2015 => "2015".to_owned(),
            RustEdition::E2018 => "2018".to_owned(),
        }
    }
}

impl Default for RustEdition {
    /// The edition used when none is configured.
    fn default() -> (r: Self)
        ensures
            r == RustEdition::E2018,
    {
        RustEdition::E2018
    }
}

/// Lexicographic order on character sequences, by code point.
pub open spec fn chars_le(a: Seq<char>, b: Seq<char>) -> bool
    decreases a.len(),
{
    if a.len() == 0 {
        true
    } else if b.len() == 0 {
        false
    } else if a[0] == b[0] {
        chars_le(a.drop_first(), b.drop_first())
    } else {
        (a[0] as u32) < (b[0] as u32)
    }
}

/// The path order used to sort the source set before hashing.
pub open spec fn path_order() -> spec_fn(Seq<char>, Seq<char>) -> bool {
    |a: Seq<char>, b: Seq<char>| chars_le(a, b)
}

proof fn lemma_chars_le_refl(a: Seq<char>)
    ensures
        chars_le(a, a),
    decreases a.len(),
{
    if a.len() > 0 {
        lemma_chars_le_refl(a.drop_first());
    }
}

proof fn lemma_chars_le_antisym(a: Seq<char>, b: Seq<char>)
    requires
        chars_le(a, b),
        chars_le(b, a),
    ensures
        a == b,
    decreases a.len(),
{
    if a.len() == 0 {
        assert(b.len() == 0);
        assert(a =~= b);
    } else {
        assert(b.len() > 0);
        if a[0] == b[0] {
            lemma_chars_le_antisym(a.drop_first(), b.drop_first());
            assert(a =~= seq![a[0]] + a.drop_first());
            assert(b =~= seq![b[0]] + b.drop_first());
        }
    }
}

proof fn lemma_chars_le_trans(a: Seq<char>, b: Seq<char>, c: Seq<char>)
    requires
        chars_le(a, b),
        chars_le(b, c),
    ensures
        chars_le(a, c),
    decreases a.len(),
{
    if a.len() > 0 && b.len() > 0 && c.len() > 0 {
        if a[0] == b[0] && b[0] == c[0] {
            lemma_chars_le_trans(a.drop_first(), b.drop_first(), c.drop_first());
        }
    }
}

proof fn lemma_char_code_inj(c1: char, c2: char)
    requires
        c1 as u32 == c2 as u32,
    ensures
        c1 == c2,
{
    vstd::utf8::char_u32_cast(c1, c1 as u32);
    vstd::utf8::char_u32_cast(c2, c2 as u32);
}

proof fn lemma_chars_le_total(a: Seq<char>, b: Seq<char>)
    ensures
        chars_le(a, b) || chars_le(b, a),
    decreases a.len(),
{
    if a.len() > 0 && b.len() > 0 {
        if a[0] == b[0] {
            lemma_chars_le_total(a.drop_first(), b.drop_first());
        } else {
            if a[0] as u32 == b[0] as u32 {
                lemma_char_code_inj(a[0], b[0]);
            }
        }
    }
}

/// The path order is a total order, so sorting by it is deterministic.
pub proof fn lemma_path_order_total()
    ensures
        total_ordering(path_order()),
{
    let leq = path_order();
    assert forall|a: Seq<char>| #[trigger] leq(a, a) by {
        lemma_chars_le_refl(a);
    }
    assert forall|a: Seq<char>, b: Seq<char>| #[trigger] leq(a, b) && #[trigger] leq(b, a)
        implies a == b by {
        lemma_chars_le_antisym(a, b);
    }
    assert forall|a: Seq<char>, b: Seq<char>, c: Seq<char>|
        #[trigger] leq(a, b) && #[trigger] leq(b, c) implies leq(a, c) by {
        lemma_chars_le_trans(a, b, c);
    }
    assert forall|a: Seq<char>, b: Seq<char>| !(#[trigger] leq(a, b)) implies leq(b, a) by {
        lemma_chars_le_total(a, b);
    }
}

/// Runtime comparison matching [`chars_le`].
fn string_le(a: &String, b: &String) -> (r: bool)
    ensures
        r == chars_le(a@, b@),
{
    let av = str_chars(a.as_str());
    let bv = str_chars(b.as_str());
    let an = av.len();
    let bn = bv.len();
    let mut i: usize = 0;
    proof {
        assert(a@.skip(0) =~= a@);
        assert(b@.skip(0) =~= b@);
    }
    loop
        invariant
            i <= an == a@.len(),
            i <= bn == b@.len(),
            av@ == a@ && bv@ == b@,
            chars_le(a@, b@) == chars_le(a@.skip(i as int), b@.skip(i as int)),
        ensures
            chars_le(a@, b@) == chars_le(a@.skip(i as int), b@.skip(i as int)),
            i <= an && i <= bn,
            i == an || i == bn || av@[i as int] != bv@[i as int],
        decreases an - i,
    {
        if i >= an || i >= bn {
            break ;
        }
        if av[i] != bv[i] {
            break ;
        }
        proof {
            let sa = a@.skip(i as int);
            let sb = b@.skip(i as int);
            assert(sa[0] == a@[i as int] && sb[0] == b@[i as int]);
            assert(sa.drop_first() =~= a@.skip(i + 1 as int));
            assert(sb.drop_first() =~= b@.skip(i + 1 as int));
        }
        i = i + 1;
    }
    proof {
        let sa = a@.skip(i as int);
        let sb = b@.skip(i as int);
        if i < an && i < bn {
            assert(sa[0] == a@[i as int] && sb[0] == b@[i as int]);
        } else {
            assert(sa.len() == 0 || sb.len() == 0);
        }
    }
    if i >= an {
        true
    } else if i >= bn {
        false
    } else {
        (av[i] as u32) < (bv[i] as u32)
    }
}

/// Sorts strings by the path order; the result is the unique sorted
/// arrangement of the input.
#[verifier::loop_isolation(false)]
fn sort_strings(v: &Vec<String>) -> (r: Vec<String>)
    ensures
        r.deep_view().to_multiset() == v.deep_view().to_multiset(),
        sorted_by(r.deep_view(), path_order()),
{
    broadcast use vstd::seq_lib::group_to_multiset_ensures;
    broadcast use vstd::seq_lib::to_multiset_insert;

    let mut r: Vec<String> = Vec::new();
    let n = v.len();
    let mut i: usize = 0;
    proof {
        assert(r.deep_view() =~= Seq::<Seq<char>>::empty());
        assert(v.deep_view().take(0) =~= Seq::<Seq<char>>::empty());
        assert(Seq::<Seq<char>>::empty().to_multiset() =~= Multiset::<Seq<char>>::empty());
    }
    while i < n
        invariant
            i <= n,
            r.deep_view().to_multiset() == v.deep_view().take(i as int).to_multiset(),
            forall|p: int, q: int|
                0 <= p < q < r.deep_view().len() ==> #[trigger] chars_le(
                    r.deep_view()[p],
                    r.deep_view()[q],
                ),
        decreases n - i,
    {
        let x = v[i].clone();
        proof {
            assert(x@ == v.deep_view()[i as int]);
        }
        let rn = r.len();
        let mut j: usize = 0;
        #[verifier::loop_isolation(true)]
        loop
            invariant
                j <= rn == r.len(),
                forall|k: int| 0 <= k < j ==> chars_le(#[trigger] r.deep_view()[k], x@),
            ensures
                j <= rn,
                forall|k: int| 0 <= k < j ==> chars_le(#[trigger] r.deep_view()[k], x@),
                j == rn || !chars_le(r.deep_view()[j as int], x@),
            decreases rn - j,
        {
            if j >= rn {
                break ;
            }
            if !string_le(&r[j], &x) {
                proof {
                    assert(r.deep_view()[j as int] == r@[j as int]@);
                }
                break ;
            }
            proof {
                assert(r.deep_view()[j as int] == r@[j as int]@);
            }
            j = j + 1;
        }
        let ghost prev_dv = r.deep_view();
        let ghost prev_view = r@;
        r.insert(j, x);
        proof {
            prev_view.insert_ensures(j as int, x);
            prev_dv.insert_ensures(j as int, x@);
            assert(r@ == prev_view.insert(j as int, x));
            assert(r.deep_view() =~~= prev_dv.insert(j as int, x@));
            assert(r.deep_view().to_multiset() == prev_dv.to_multiset().insert(x@));
            assert(v.deep_view().take(i + 1 as int) =~= v.deep_view().take(i as int).push(
                v.deep_view()[i as int],
            ));
            assert(v.deep_view().take(i + 1 as int).to_multiset() == v.deep_view().take(
                i as int,
            ).to_multiset().insert(x@));
            // sortedness is kept: everything before `j` is at most `x`,
            // everything from `j` on is at least `x`
            let dv = r.deep_view();
            let jj = j as int;
            if jj < prev_dv.len() {
                assert(!chars_le(prev_dv[jj], x@));
                lemma_chars_le_total(prev_dv[jj], x@);
            }
            assert forall|q: int| jj <= q < prev_dv.len() implies chars_le(
                x@,
                #[trigger] prev_dv[q],
            ) by {
                if q > jj {
                    assert(chars_le(prev_dv[jj], prev_dv[q]));
                    lemma_chars_le_trans(x@, prev_dv[jj], prev_dv[q]);
                }
            }
            assert forall|p: int, q: int| 0 <= p < q < dv.len() implies #[trigger] chars_le(
                dv[p],
                dv[q],
            ) by {
                if q < jj {
                    assert(dv[p] == prev_dv[p] && dv[q] == prev_dv[q]);
                } else if p < jj && q == jj {
                    assert(dv[p] == prev_dv[p] && dv[q] == x@);
                } else if p < jj && q > jj {
                    assert(dv[p] == prev_dv[p] && dv[q] == prev_dv[q - 1]);
                    assert(chars_le(x@, prev_dv[q - 1]));
                    lemma_chars_le_trans(prev_dv[p], x@, prev_dv[q - 1]);
                } else if p == jj {
                    assert(dv[p] == x@ && dv[q] == prev_dv[q - 1]);
                    assert(chars_le(x@, prev_dv[q - 1]));
                } else {
                    assert(dv[p] == prev_dv[p - 1] && dv[q] == prev_dv[q - 1]);
                }
            }
        }
        i = i + 1;
    }
    proof {
        assert(v.deep_view().take(n as int) =~= v.deep_view());
        let dv = r.deep_view();
        let leq = path_order();
        assert forall|p: int, q: int| 0 <= p < q < dv.len() implies #[trigger] leq(
            dv[p],
            dv[q],
        ) by {
            assert(chars_le(dv[p], dv[q]));
        }
    }
    r
}

/// What the SHA-1 function yields for the given bytes; the digest depends on
/// the bytes alone.
pub uninterp spec fn sha1_digest(data: Seq<u8>) -> Seq<u8>;

/// Relies on `sha1::Sha1` (the `sha1_smol` implementation): the SHA-1 digest
/// of the input bytes, always 20 bytes long.
#[verifier::external_body]
fn sha1_bytes(data: &Vec<u8>) -> (r: Vec<u8>)
    ensures
        r@ == sha1_digest(data@),
        r@.len() == 20,
{
    let mut h = sha1::Sha1::new();
    h.update(data.as_slice());
    h.digest().bytes().to_vec()
}

/// What base-58 encoding yields for the given bytes; the text depends on the
/// bytes alone.
pub uninterp spec fn base58_text(data: Seq<u8>) -> Seq<char>;

/// Relies on `bs58::encode` with its default (Bitcoin) alphabet: the base-58
/// text of the input bytes.
#[verifier::external_body]
fn bs58_string(data: &Vec<u8>) -> (r: String)
    ensures
        r@ == base58_text(data@),
{
    bs58::encode(data.as_slice()).into_string()
}

/// The UTF-8 bytes of a string slice.
fn str_bytes(s: &str) -> (r: Vec<u8>)
    ensures
        r@ == vstd::utf8::encode_utf8(s@),
{
    vstd::slice::slice_to_vec(s.as_bytes())
}

/// The concatenated UTF-8 bytes of a list of paths.
pub open spec fn cat_bytes(paths: Seq<Seq<char>>) -> Seq<u8>
    decreases paths.len(),
{
    if paths.len() == 0 {
        Seq::empty()
    } else {
        vstd::utf8::encode_utf8(paths[0]) + cat_bytes(paths.drop_first())
    }
}

/// The workspace identity of a set of canonical source paths: the paths are
/// sorted, their UTF-8 bytes concatenated, digested with SHA-1 and encoded in
/// base 58. File contents play no part, by design: two invocations against
/// the same path set resolve to the same workspace even if contents changed.
pub open spec fn src_hash_spec(paths: Seq<Seq<char>>) -> Seq<char> {
    base58_text(sha1_digest(cat_bytes(paths.sort_by(path_order()))))
}

/// Order independence of the workspace identity: two path lists that hold
/// the same paths, in any order, yield the same identity.
pub proof fn lemma_src_hash_order_independent(a: Seq<Seq<char>>, b: Seq<Seq<char>>)
    requires
        a.to_multiset() == b.to_multiset(),
    ensures
        src_hash_spec(a) == src_hash_spec(b),
{
    let leq = path_order();
    lemma_path_order_total();
    a.lemma_sort_by_ensures(leq);
    b.lemma_sort_by_ensures(leq);
    lemma_sorted_unique(a.sort_by(leq), b.sort_by(leq), leq);
    assert(a.sort_by(leq) == b.sort_by(leq));
}

/// The resolved configuration of one invocation, as the excluded
/// command-line layer hands it over.
#[derive(Debug, Clone)]
pub struct Opt {
    pub debug: bool,
    /// Rebuild the project without the cache from the previous run.
    pub clean: bool,
    /// Toolchain override, extracted from a `+toolchain` argument.
    pub toolchain: Option<String>,
    /// Canonical absolute paths of the source files, in input order.
    pub src: Vec<String>,
    /// The configured Rust edition.
    pub edition: RustEdition,
    /// Build in release mode.
    pub release: bool,
    /// Reuse a previously built binary when one exists.
    pub cached: bool,
    /// Pass `--quiet` to the toolchain.
    pub quiet: bool,
    /// How many `-v` flags to pass to the toolchain.
    pub verbose: u16,
    /// Raw extra flags appended verbatim to the toolchain invocation.
    pub cargo_option: Option<String>,
    /// Export destination: generate the project there instead of building.
    pub save: Option<String>,
    /// Infer dependencies from the sources' use statements.
    pub infer: bool,
    /// The entry unit arrives on standard input.
    pub stdin: bool,
    /// Run the toolchain in test mode.
    pub test: bool,
    /// Run the toolchain in check mode.
    pub check: bool,
    /// A custom toolchain subcommand overriding the run mode.
    pub mode: Option<String>,
    /// Trailing arguments passed through to the built program.
    pub args: Vec<String>,
}

impl Default for Opt {
    /// A configuration with nothing set: no sources, no flags, the default
    /// edition.
    fn default() -> (r: Self)
        ensures
            r.debug == false && r.clean == false && r.toolchain is None,
            r.src@.len() == 0,
            r.edition == RustEdition::E2018,
            r.release == false && r.cached == false && r.quiet == false,
            r.verbose == 0,
            r.cargo_option is None && r.save is None,
            r.infer == false && r.stdin == false && r.test == false && r.check == false,
            r.mode is None,
            r.args@.len() == 0,
    {
        Opt {
            debug: false,
            clean: false,
            toolchain: None,
            src: Vec::new(),
            edition: RustEdition::E2018,
            release: false,
            cached: false,
            quiet: false,
            verbose: 0,
            cargo_option: None,
            save: None,
            infer: false,
            stdin: false,
            test: false,
            check: false,
            mode: None,
            args: Vec::new(),
        }
    }
}

impl Opt {
    /// Replaces the toolchain override.
    pub fn with_toolchain(self, toolchain: Option<String>) -> (r: Self)
        ensures
            r == (Opt { toolchain, ..self }),
    {
        Opt { toolchain, ..self }
    }

    /// The workspace identity of this invocation's source set; see
    /// [`src_hash_spec`].
    pub fn src_hash(&self) -> (r: String)
        ensures
            r@ == src_hash_spec(self.src.deep_view()),
    {
        let sorted = sort_strings(&self.src);
        proof {
            let leq = path_order();
            lemma_path_order_total();
            self.src.deep_view().lemma_sort_by_ensures(leq);
            lemma_sorted_unique(sorted.deep_view(), self.src.deep_view().sort_by(leq), leq);
            assert(sorted.deep_view() == self.src.deep_view().sort_by(leq));
        }
        let mut bytes: Vec<u8> = Vec::new();
        let m = sorted.len();
        let mut i: usize = 0;
        proof {
            assert(sorted.deep_view().skip(0) =~= sorted.deep_view());
            assert(Seq::<u8>::empty() + cat_bytes(sorted.deep_view()) =~= cat_bytes(
                sorted.deep_view(),
            ));
        }
        while i < m
            invariant
                i <= m == sorted@.len(),
                cat_bytes(sorted.deep_view()) == bytes@ + cat_bytes(
                    sorted.deep_view().skip(i as int),
                ),
            decreases m - i,
        {
            let mut piece = str_bytes(sorted[i].as_str());
            proof {
                let sfx = sorted.deep_view().skip(i as int);
                assert(sfx[0] == sorted.deep_view()[i as int]);
                assert(sfx.drop_first() =~= sorted.deep_view().skip(i + 1 as int));
                assert(sorted.deep_view()[i as int] == sorted@[i as int]@);
            }
            bytes.append(&mut piece);
            proof {
                assert(cat_bytes(sorted.deep_view()) =~= bytes@ + cat_bytes(
                    sorted.deep_view().skip(i + 1 as int),
                ));
            }
            i = i + 1;
        }
        proof {
            assert(sorted.deep_view().skip(m as int) =~= Seq::<Seq<char>>::empty());
            assert(bytes@ + Seq::<u8>::empty() =~= bytes@);
        }
        let digest = sha1_bytes(&bytes);
        bs58_string(&digest)
    }

    /// The deterministic workspace directory name of this invocation.
    pub fn temp_dirname(&self) -> (r: String)
        ensures
            r@ == "cargo-play."@ + src_hash_spec(self.src.deep_view()),
    {
        let mut s = "cargo-play.".to_owned();
        let h = self.src_hash();
        s.append(h.as_str());
        s
    }
}

/// The ghost shape of a configuration: every field of [`Opt`] by its view.
#[verifier::ext_equal]
pub ghost struct OptView {
    pub debug: bool,
    pub clean: bool,
    pub toolchain: Option<Seq<char>>,
    pub src: Seq<Seq<char>>,
    pub edition: RustEdition,
    pub release: bool,
    pub cached: bool,
    pub quiet: bool,
    pub verbose: u16,
    pub cargo_option: Option<Seq<char>>,
    pub save: Option<Seq<char>>,
    pub infer: bool,
    pub stdin: bool,
    pub test: bool,
    pub check: bool,
    pub mode: Option<Seq<char>>,
    pub args: Seq<Seq<char>>,
}

impl View for Opt {
    type V = OptView;

    open spec fn view(&self) -> OptView {
        OptView {
            debug: self.debug,
            clean: self.clean,
            toolchain: match self.toolchain {
                Some(t) => Some(t@),
                None => None,
            },
            src: self.src.deep_view(),
            edition: self.edition,
            release: self.release,
            cached: self.cached,
            quiet: self.quiet,
            verbose: self.verbose,
            cargo_option: match self.cargo_option {
                Some(t) => Some(t@),
                None => None,
            },
            save: match self.save {
                Some(t) => Some(t@),
                None => None,
            },
            infer: self.infer,
            stdin: self.stdin,
            test: self.test,
            check: self.check,
            mode: match self.mode {
                Some(t) => Some(t@),
                None => None,
            },
            args: self.args.deep_view(),
        }
    }
}

/// The configuration with nothing set, as parsing starts from it.
pub open spec fn opt_view_init() -> OptView {
    OptView {
        debug: false,
        clean: false,
        toolchain: None,
        src: Seq::empty(),
        edition: RustEdition::E2018,
        release: false,
        cached: false,
        quiet: false,
        verbose: 0u16,
        cargo_option: None,
        save: None,
        infer: false,
        stdin: false,
        test: false,
        check: false,
        mode: None,
        args: Seq::empty(),
    }
}

/// The edition an argument value denotes, when it is in the accepted set.
pub open spec fn edition_of(v: Seq<char>) -> Option<RustEdition> {
    if v == "2015"@ {
        Some(RustEdition::E2015)
    } else if v == "2018"@ {
        Some(RustEdition::E2018)
    } else {
        None
    }
}

/// Folds the argument list after the program name into a configuration:
/// boolean switches set their flags, `-v` counts, value switches take the
/// next argument or an attached `=` value, a `+` argument names the
/// toolchain (the first one wins, all are consumed), `--` ends the flags
/// and passes the rest through to the program, and anything else is a
/// source path. An unknown switch, a missing value or a rejected edition
/// fails the whole parse.
pub open spec fn parse_flags(args: Seq<Seq<char>>, st: OptView) -> Option<OptView>
    decreases args.len(),
{
    if args.len() == 0 {
        Some(st)
    } else {
        let a = args[0];
        let rest = args.drop_first();
        if a == "--"@ {
            Some(OptView { args: rest, ..st })
        } else if a == "-d"@ || a == "--debug"@ {
            parse_flags(rest, OptView { debug: true, ..st })
        } else if a == "-c"@ || a == "--clean"@ {
            parse_flags(rest, OptView { clean: true, ..st })
        } else if a == "--release"@ {
            parse_flags(rest, OptView { release: true, ..st })
        } else if a == "--cached"@ {
            parse_flags(rest, OptView { cached: true, ..st })
        } else if a == "--quiet"@ {
            parse_flags(rest, OptView { quiet: true, ..st })
        } else if a == "-i"@ || a == "--infer"@ {
            parse_flags(rest, OptView { infer: true, ..st })
        } else if a == "--stdin"@ {
            parse_flags(rest, OptView { stdin: true, ..st })
        } else if a == "--test"@ {
            parse_flags(rest, OptView { test: true, ..st })
        } else if a == "--check"@ {
            parse_flags(rest, OptView { check: true, ..st })
        } else if a == "-v"@ || a == "--verbose"@ {
            let v: u16 = if st.verbose < 65535u16 {
                (st.verbose + 1) as u16
            } else {
                st.verbose
            };
            parse_flags(rest, OptView { verbose: v, ..st })
        } else if a == "--edition"@ {
            if args.len() >= 2 {
                match edition_of(args[1]) {
                    Some(e) => parse_flags(args.skip(2), OptView { edition: e, ..st }),
                    None => None,
                }
            } else {
                None
            }
        } else if a.len() >= "--edition="@.len() && a.take("--edition="@.len() as int)
            == "--edition="@ {
            match edition_of(a.skip("--edition="@.len() as int)) {
                Some(e) => parse_flags(rest, OptView { edition: e, ..st }),
                None => None,
            }
        } else if a == "--cargo-option"@ {
            if args.len() >= 2 {
                parse_flags(args.skip(2), OptView { cargo_option: Some(args[1]), ..st })
            } else {
                None
            }
        } else if a.len() >= "--cargo-option="@.len() && a.take("--cargo-option="@.len() as int)
            == "--cargo-option="@ {
            parse_flags(
                rest,
                OptView { cargo_option: Some(a.skip("--cargo-option="@.len() as int)), ..st },
            )
        } else if a == "--save"@ {
            if args.len() >= 2 {
                parse_flags(args.skip(2), OptView { save: Some(args[1]), ..st })
            } else {
                None
            }
        } else if a.len() >= "--save="@.len() && a.take("--save="@.len() as int) == "--save="@ {
            parse_flags(rest, OptView { save: Some(a.skip("--save="@.len() as int)), ..st })
        } else if a == "--mode"@ {
            if args.len() >= 2 {
                parse_flags(args.skip(2), OptView { mode: Some(args[1]), ..st })
            } else {
                None
            }
        } else if a.len() >= "--mode="@.len() && a.take("--mode="@.len() as int) == "--mode="@ {
            parse_flags(rest, OptView { mode: Some(a.skip("--mode="@.len() as int)), ..st })
        } else if a.len() >= 1 && a[0] == '+' {
            if st.toolchain is None {
                parse_flags(rest, OptView { toolchain: Some(a.skip(1)), ..st })
            } else {
                parse_flags(rest, st)
            }
        } else if a.len() >= 2 && a[0] == '-' {
            None
        } else {
            parse_flags(rest, OptView { src: st.src.push(a), ..st })
        }
    }
}

/// What parsing a full argument vector yields: nothing for a bare
/// invocation (help is shown instead); otherwise the flags after the
/// program name — and after a leading `play` subcommand word — folded into
/// a configuration.
pub open spec fn parse_spec(args: Seq<Seq<char>>) -> Option<OptView> {
    if args.len() < 2 {
        None
    } else {
        let body = if args[1] == "play"@ {
            args.skip(2)
        } else {
            args.skip(1)
        };
        parse_flags(body, opt_view_init())
    }
}


proof fn lemma_editions_distinct()
    ensures
        "2015"@ != "2018"@,
{
    reveal_strlit("2015");
    reveal_strlit("2018");
    assert("2015"@[3] == '5');
    assert("2018"@[3] == '8');
}

/// What one step of the argument fold did: moved to the next index,
/// finished at the `--` separator, or rejected the argument list.
pub enum ParseStep {
    Next(usize),
    Finish,
    Reject,
}

/// Folds one argument (with its value, for a value switch) into `opt`;
/// see [`parse_flags`].
#[verifier::loop_isolation(false)]
#[verifier::rlimit(100)]
fn parse_step(args: &Vec<String>, n: usize, i: usize, opt: &mut Opt) -> (r: ParseStep)
    requires
        n == args@.len(),
        i < n,
    ensures
        match r {
            ParseStep::Next(ni) => i < ni <= n && parse_flags(
                args.deep_view().skip(i as int),
                old(opt)@,
            ) == parse_flags(args.deep_view().skip(ni as int), final(opt)@),
            ParseStep::Finish => parse_flags(args.deep_view().skip(i as int), old(opt)@) == Some(
                final(opt)@,
            ),
            ParseStep::Reject => parse_flags(args.deep_view().skip(i as int), old(opt)@) is None,
        },
{
    let ghost av = args.deep_view();
    let ghost sfx = av.skip(i as int);
    let ghost cur = opt@;
    proof {
        assert(sfx[0] == av[i as int]);
        assert(av[i as int] == args@[i as int]@);
        assert(sfx.drop_first() =~= av.skip(i + 1 as int));
        if i + 2 <= n {
            assert(sfx.skip(2) =~= av.skip(i + 2 as int));
        }
        if i + 1 < n {
            assert(sfx[1] == av[i + 1 as int]);
            assert(av[i + 1 as int] == args@[i + 1 as int]@);
        }
    }
    let a = &args[i];
    if crate::text::str_eq(a.as_str(), "--") {
        let mut rest: Vec<String> = Vec::new();
        let mut j: usize = i + 1;
        while j < n
            invariant
                i + 1 <= j <= n,
                rest.deep_view() =~= av.subrange(i + 1 as int, j as int),
            decreases n - j,
        {
            let ghost prev = rest.deep_view();
            let w = args[j].clone();
            proof {
                assert(w@ == av[j as int]);
            }
            rest.push(w);
            proof {
                assert(rest.deep_view() =~~= prev.push(av[j as int]));
                assert(rest.deep_view() =~= av.subrange(i + 1 as int, j + 1 as int));
            }
            j = j + 1;
        }
        opt.args = rest;
        proof {
            assert(av.subrange(i + 1 as int, n as int) =~= sfx.drop_first());
            assert(opt@ =~= (OptView { args: sfx.drop_first(), ..cur }));
            assert(parse_flags(sfx, cur) == Some(opt@));
        }
        return ParseStep::Finish;
    } else if crate::text::str_eq(a.as_str(), "-d") || crate::text::str_eq(
        a.as_str(),
        "--debug",
    ) {
        opt.debug = true;
        proof {
            assert(opt@ =~= (OptView { debug: true, ..cur }));
        }
        return ParseStep::Next(i + 1);
    } else if crate::text::str_eq(a.as_str(), "-c") || crate::text::str_eq(
        a.as_str(),
        "--clean",
    ) {
        opt.clean = true;
        proof {
            assert(opt@ =~= (OptView { clean: true, ..cur }));
        }
        return ParseStep::Next(i + 1);
    } else if crate::text::str_eq(a.as_str(), "--release") {
        opt.release = true;
        proof {
            assert(opt@ =~= (OptView { release: true, ..cur }));
        }
        return ParseStep::Next(i + 1);
    } else if crate::text::str_eq(a.as_str(), "--cached") {
        opt.cached = true;
        proof {
            assert(opt@ =~= (OptView { cached: true, ..cur }));
        }
        return ParseStep::Next(i + 1);
    } else if crate::text::str_eq(a.as_str(), "--quiet") {
        opt.quiet = true;
        proof {
            assert(opt@ =~= (OptView { quiet: true, ..cur }));
        }
        return ParseStep::Next(i + 1);
    } else if crate::text::str_eq(a.as_str(), "-i") || crate::text::str_eq(
        a.as_str(),
        "--infer",
    ) {
        opt.infer = true;
        proof {
            assert(opt@ =~= (OptView { infer: true, ..cur }));
        }
        return ParseStep::Next(i + 1);
    } else if crate::text::str_eq(a.as_str(), "--stdin") {
        opt.stdin = true;
        proof {
            assert(opt@ =~= (OptView { stdin: true, ..cur }));
        }
        return ParseStep::Next(i + 1);
    } else if crate::text::str_eq(a.as_str(), "--test") {
        opt.test = true;
        proof {
            assert(opt@ =~= (OptView { test: true, ..cur }));
        }
        return ParseStep::Next(i + 1);
    } else if crate::text::str_eq(a.as_str(), "--check") {
        opt.check = true;
        proof {
            assert(opt@ =~= (OptView { check: true, ..cur }));
        }
        return ParseStep::Next(i + 1);
    } else if crate::text::str_eq(a.as_str(), "-v") || crate::text::str_eq(
        a.as_str(),
        "--verbose",
    ) {
        if opt.verbose < 65535 {
            opt.verbose = opt.verbose + 1;
        }
        proof {
            assert(opt@ =~= (OptView {
                verbose: (if cur.verbose < 65535u16 {
                    (cur.verbose + 1) as u16
                } else {
                    cur.verbose
                }),
                ..cur
            }));
        }
        return ParseStep::Next(i + 1);
    } else {
        let r = parse_step_value(args, n, i, opt);
        return r;
    }
}

/// Folds one value-taking or positional argument into `opt`; the argument
/// is none of the boolean switches.
#[verifier::loop_isolation(false)]
#[verifier::rlimit(100)]
fn parse_step_value(args: &Vec<String>, n: usize, i: usize, opt: &mut Opt) -> (r: ParseStep)
    requires
        n == args@.len(),
        i < n,
        ({
            let a = args.deep_view().skip(i as int)[0];
            &&& a != "--"@
            &&& a != "-d"@ && a != "--debug"@
            &&& a != "-c"@ && a != "--clean"@
            &&& a != "--release"@ && a != "--cached"@ && a != "--quiet"@
            &&& a != "-i"@ && a != "--infer"@
            &&& a != "--stdin"@ && a != "--test"@ && a != "--check"@
            &&& a != "-v"@ && a != "--verbose"@
        }),
    ensures
        match r {
            ParseStep::Next(ni) => i < ni <= n && parse_flags(
                args.deep_view().skip(i as int),
                old(opt)@,
            ) == parse_flags(args.deep_view().skip(ni as int), final(opt)@),
            ParseStep::Finish => parse_flags(args.deep_view().skip(i as int), old(opt)@) == Some(
                final(opt)@,
            ),
            ParseStep::Reject => parse_flags(args.deep_view().skip(i as int), old(opt)@) is None,
        },
{
    let ghost av = args.deep_view();
    let ghost sfx = av.skip(i as int);
    let ghost cur = opt@;
    proof {
        assert(sfx[0] == av[i as int]);
        assert(av[i as int] == args@[i as int]@);
        assert(sfx.drop_first() =~= av.skip(i + 1 as int));
        if i + 2 <= n {
            assert(sfx.skip(2) =~= av.skip(i + 2 as int));
        }
        if i + 1 < n {
            assert(sfx[1] == av[i + 1 as int]);
            assert(av[i + 1 as int] == args@[i + 1 as int]@);
        }
    }
    let a = &args[i];
    if crate::text::str_eq(a.as_str(), "--edition") {
        if i + 1 < n {
            match RustEdition::from_str(args[i + 1].as_str()) {
                Ok(e) => {
                    opt.edition = e;
                    proof {
                        lemma_editions_distinct();
                        assert(edition_of(sfx[1]) == Some(e));
                        assert(opt@ =~= (OptView { edition: e, ..cur }));
                    }
                    return ParseStep::Next(i + 2);
                },
                Err(_) => {
                    proof {
                        assert(edition_of(sfx[1]) is None);
                    }
                    return ParseStep::Reject;
                },
            }
        } else {
            proof {
                assert(sfx.len() < 2);
            }
            return ParseStep::Reject;
        }
    } else if crate::text::str_starts_with(a.as_str(), "--edition=") {
        let k = crate::text::str_char_len("--edition=");
        let v = crate::text::str_skip(a.as_str(), k);
        match RustEdition::from_str(v.as_str()) {
            Ok(e) => {
                opt.edition = e;
                proof {
                    lemma_editions_distinct();
                    assert(edition_of(sfx[0].skip("--edition="@.len() as int)) == Some(e));
                    assert(opt@ =~= (OptView { edition: e, ..cur }));
                }
                return ParseStep::Next(i + 1);
            },
            Err(_) => {
                proof {
                    assert(edition_of(sfx[0].skip("--edition="@.len() as int)) is None);
                }
                return ParseStep::Reject;
            },
        }
    } else if crate::text::str_eq(a.as_str(), "--cargo-option") {
        if i + 1 < n {
            opt.cargo_option = Some(args[i + 1].clone());
            proof {
                assert(opt@ =~= (OptView { cargo_option: Some(sfx[1]), ..cur }));
            }
            return ParseStep::Next(i + 2);
        } else {
            return ParseStep::Reject;
        }
    } else if crate::text::str_starts_with(a.as_str(), "--cargo-option=") {
        let k = crate::text::str_char_len("--cargo-option=");
        let v = crate::text::str_skip(a.as_str(), k);
        opt.cargo_option = Some(v);
        proof {
            assert(opt@ =~= (OptView {
                cargo_option: Some(sfx[0].skip("--cargo-option="@.len() as int)),
                ..cur
            }));
        }
        return ParseStep::Next(i + 1);
    } else {
        let r = parse_step_rest(args, n, i, opt);
        return r;
    }
}

/// Folds one trailing-category argument into `opt`: an export destination,
/// a custom mode, a toolchain override or a source path.
#[verifier::loop_isolation(false)]
#[verifier::rlimit(100)]
fn parse_step_rest(args: &Vec<String>, n: usize, i: usize, opt: &mut Opt) -> (r: ParseStep)
    requires
        n == args@.len(),
        i < n,
        ({
            let a = args.deep_view().skip(i as int)[0];
            &&& a != "--"@
            &&& a != "-d"@ && a != "--debug"@
            &&& a != "-c"@ && a != "--clean"@
            &&& a != "--release"@ && a != "--cached"@ && a != "--quiet"@
            &&& a != "-i"@ && a != "--infer"@
            &&& a != "--stdin"@ && a != "--test"@ && a != "--check"@
            &&& a != "-v"@ && a != "--verbose"@
            &&& a != "--edition"@
            &&& !(a.len() >= "--edition="@.len() && a.take("--edition="@.len() as int)
                == "--edition="@)
            &&& a != "--cargo-option"@
            &&& !(a.len() >= "--cargo-option="@.len() && a.take("--cargo-option="@.len() as int)
                == "--cargo-option="@)
        }),
    ensures
        match r {
            ParseStep::Next(ni) => i < ni <= n && parse_flags(
                args.deep_view().skip(i as int),
                old(opt)@,
            ) == parse_flags(args.deep_view().skip(ni as int), final(opt)@),
            ParseStep::Finish => parse_flags(args.deep_view().skip(i as int), old(opt)@) == Some(
                final(opt)@,
            ),
            ParseStep::Reject => parse_flags(args.deep_view().skip(i as int), old(opt)@) is None,
        },
{
    let ghost av = args.deep_view();
    let ghost sfx = av.skip(i as int);
    let ghost cur = opt@;
    proof {
        assert(sfx[0] == av[i as int]);
        assert(av[i as int] == args@[i as int]@);
        assert(sfx.drop_first() =~= av.skip(i + 1 as int));
        if i + 2 <= n {
            assert(sfx.skip(2) =~= av.skip(i + 2 as int));
        }
        if i + 1 < n {
            assert(sfx[1] == av[i + 1 as int]);
            assert(av[i + 1 as int] == args@[i + 1 as int]@);
        }
    }
    let a = &args[i];
    if crate::text::str_eq(a.as_str(), "--save") {
        if i + 1 < n {
            opt.save = Some(args[i + 1].clone());
            proof {
                assert(opt@ =~= (OptView { save: Some(sfx[1]), ..cur }));
            }
            return ParseStep::Next(i + 2);
        } else {
            return ParseStep::Reject;
        }
    } else if crate::text::str_starts_with(a.as_str(), "--save=") {
        let k = crate::text::str_char_len("--save=");
        let v = crate::text::str_skip(a.as_str(), k);
        opt.save = Some(v);
        proof {
            assert(opt@ =~= (OptView { save: Some(sfx[0].skip("--save="@.len() as int)), ..cur }));
        }
        return ParseStep::Next(i + 1);
    } else if crate::text::str_eq(a.as_str(), "--mode") {
        if i + 1 < n {
            opt.mode = Some(args[i + 1].clone());
            proof {
                assert(opt@ =~= (OptView { mode: Some(sfx[1]), ..cur }));
            }
            return ParseStep::Next(i + 2);
        } else {
            return ParseStep::Reject;
        }
    } else if crate::text::str_starts_with(a.as_str(), "--mode=") {
        let k = crate::text::str_char_len("--mode=");
        let v = crate::text::str_skip(a.as_str(), k);
        opt.mode = Some(v);
        proof {
            assert(opt@ =~= (OptView { mode: Some(sfx[0].skip("--mode="@.len() as int)), ..cur }));
        }
        return ParseStep::Next(i + 1);
    } else if crate::text::str_starts_with(a.as_str(), "+") {
        proof {
            reveal_strlit("+");
            assert(sfx[0].len() >= 1 && sfx[0].take(1)[0] == sfx[0][0]);
            assert(sfx[0][0] == '+');
        }
        if opt.toolchain.is_none() {
            let v = crate::text::str_skip(a.as_str(), 1);
            opt.toolchain = Some(v);
            proof {
                assert(cur.toolchain is None);
                assert(opt@ =~= (OptView { toolchain: Some(sfx[0].skip(1)), ..cur }));
            }
        } else {
            proof {
                assert(!(cur.toolchain is None));
                assert(opt@ =~= cur);
            }
        }
        return ParseStep::Next(i + 1);
    } else {
        let alen = crate::text::str_char_len(a.as_str());
        let dash = if alen >= 2 {
            crate::text::str_starts_with(a.as_str(), "-")
        } else {
            false
        };
        proof {
            reveal_strlit("-");
            reveal_strlit("+");
            if sfx[0].len() >= 1 {
                assert(sfx[0].take(1)[0] == sfx[0][0]);
            }
        }
        if dash {
            proof {
                assert(sfx[0].len() >= 2 && sfx[0][0] == '-');
            }
            return ParseStep::Reject;
        }
        let ghost prev_src = opt.src.deep_view();
        let w = a.clone();
        opt.src.push(w);
        proof {
            if sfx[0].len() >= 2 && sfx[0][0] == '-' {
                assert(sfx[0].take(1) =~= "-"@);
                assert(false);
            }
            if sfx[0].len() >= 1 && sfx[0][0] == '+' {
                assert(sfx[0].take(1) =~= "+"@);
                assert(false);
            }
            assert(opt.src.deep_view() =~~= prev_src.push(sfx[0]));
            assert(opt@ =~= (OptView { src: cur.src.push(sfx[0]), ..cur }));
        }
        return ParseStep::Next(i + 1);
    }
}

impl Opt {
    /// Parses a full argument vector into the configuration; see
    /// [`parse_spec`]. A bare invocation and every malformed argument list
    /// are rejected.
    #[verifier::loop_isolation(false)]
    pub fn parse(args: Vec<String>) -> (r: Result<Opt, ()>)
        ensures
            match r {
                Ok(o) => parse_spec(args.deep_view()) == Some(o@),
                Err(_) => parse_spec(args.deep_view()) is None,
            },
    {
        let ghost av = args.deep_view();
        if args.len() < 2 {
            return Err(());
        }
        proof {
            assert(av[1] == args@[1]@);
        }
        let start: usize = if crate::text::str_eq(args[1].as_str(), "play") {
            2
        } else {
            1
        };
        let mut opt = Opt::default();
        proof {
            assert(opt.src.deep_view() =~= Seq::<Seq<char>>::empty());
            assert(opt.args.deep_view() =~= Seq::<Seq<char>>::empty());
            assert(opt@ =~= opt_view_init());
            assert(parse_spec(av) == parse_flags(av.skip(start as int), opt_view_init()));
        }
        let n = args.len();
        let mut i: usize = start;
        while i < n
            invariant
                start <= i <= n,
                parse_spec(av) == parse_flags(av.skip(i as int), opt@),
            decreases n - i,
        {
            match parse_step(&args, n, i, &mut opt) {
                ParseStep::Next(ni) => {
                    i = ni;
                },
                ParseStep::Finish => {
                    return Ok(opt);
                },
                ParseStep::Reject => {
                    return Err(());
                },
            }
        }
        proof {
            assert(av.skip(n as int) =~= Seq::<Seq<char>>::empty());
        }
        Ok(opt)
    }
}

} // verus!
