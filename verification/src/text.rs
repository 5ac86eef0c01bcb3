use vstd::prelude::*;
use vstd::std_specs::iter::IteratorSpec;

verus! {

/// Collects the characters of a string slice into a vector, so that the
/// scanning passes can index text directly.
pub fn str_chars(s: &str) -> (r: Vec<char>)
    ensures
        r@ == s@,
{
    let mut it = s.chars();
    let mut r: Vec<char> = Vec::new();
    loop
        invariant
            s@ == r@ + it.remaining(),
            it.decrease() is Some,
        ensures
            s@ == r@,
        decreases it.decrease()->0,
    {
        match it.next() {
            Some(c) => {
                r.push(c);
                assert(s@ =~= r@ + it.remaining());
            },
            None => {
                assert(s@ =~= r@);
                break ;
            },
        }
    }
    r
}

/// Relies on `core::iter::Iterator::collect`: a `String` collected from
/// characters holds exactly those characters in order.
#[verifier::external_body]
pub fn chars_string(v: &[char]) -> (r: String)
    ensures
        r@ == v@,
{
    v.iter().collect()
}

/// Copies the characters of `v` between `from` and `to` into a fresh vector.
pub fn subvec(v: &Vec<char>, from: usize, to: usize) -> (r: Vec<char>)
    requires
        from <= to <= v@.len(),
    ensures
        r@ == v@.subrange(from as int, to as int),
{
    let s = vstd::slice::slice_subrange(v.as_slice(), from, to);
    vstd::slice::slice_to_vec(s)
}

/// Whether two string slices hold the same characters.
pub fn str_eq(a: &str, b: &str) -> (r: bool)
    ensures
        r == (a@ == b@),
{
    let av = str_chars(a);
    let bv = str_chars(b);
    chars_eq(&av, &bv)
}

/// Whether two character vectors are equal.
pub fn chars_eq(a: &Vec<char>, b: &Vec<char>) -> (r: bool)
    ensures
        r == (a@ == b@),
{
    if a.len() != b.len() {
        return false;
    }
    let n = a.len();
    let mut i: usize = 0;
    while i < n
        invariant
            n == a@.len() == b@.len(),
            i <= n,
            forall|j: int| 0 <= j < i ==> a@[j] == b@[j],
        decreases n - i,
    {
        if a[i] != b[i] {
            return false;
        }
        i = i + 1;
    }
    proof {
        assert(a@ =~= b@);
    }
    true
}

/// The characters `char::is_whitespace` accepts: the Unicode `White_Space`
/// code points.
pub open spec fn is_ws(c: char) -> bool {
    let u = c as u32;
    u == 0x09 || u == 0x0A || u == 0x0B || u == 0x0C || u == 0x0D || u == 0x20 || u == 0x85
        || u == 0xA0 || u == 0x1680 || (0x2000 <= u && u <= 0x200A) || u == 0x2028 || u == 0x2029
        || u == 0x202F || u == 0x205F || u == 0x3000
}

/// Runtime test for [`is_ws`].
pub fn is_ws_exec(c: char) -> (r: bool)
    ensures
        r == is_ws(c),
{
    let u = c as u32;
    u == 0x09 || u == 0x0A || u == 0x0B || u == 0x0C || u == 0x0D || u == 0x20 || u == 0x85
        || u == 0xA0 || u == 0x1680 || (0x2000 <= u && u <= 0x200A) || u == 0x2028 || u == 0x2029
        || u == 0x202F || u == 0x205F || u == 0x3000
}

/// `l` with its leading whitespace removed.
pub open spec fn trim_start_spec(l: Seq<char>) -> Seq<char>
    decreases l.len(),
{
    if l.len() > 0 && is_ws(l[0]) {
        trim_start_spec(l.drop_first())
    } else {
        l
    }
}

/// Returns the first index at or after `from` in `v` holding a character that
/// is not whitespace (or the length, when only whitespace follows).
pub fn trim_start_from(v: &Vec<char>, from: usize) -> (i: usize)
    requires
        from <= v@.len(),
    ensures
        from <= i <= v@.len(),
        v@.subrange(i as int, v@.len() as int) == trim_start_spec(
            v@.subrange(from as int, v@.len() as int),
        ),
{
    let n = v.len();
    let mut i: usize = from;
    loop
        invariant
            from <= i <= n == v@.len(),
            trim_start_spec(v@.subrange(from as int, n as int)) == trim_start_spec(
                v@.subrange(i as int, n as int),
            ),
        ensures
            from <= i <= n,
            v@.subrange(i as int, n as int) == trim_start_spec(
                v@.subrange(from as int, n as int),
            ),
        decreases n - i,
    {
        if i >= n {
            proof {
                assert(v@.subrange(i as int, n as int) =~= Seq::<char>::empty());
            }
            break ;
        }
        if !is_ws_exec(v[i]) {
            proof {
                assert(v@.subrange(i as int, n as int)[0] == v@[i as int]);
            }
            break ;
        }
        proof {
            assert(v@.subrange(i as int, n as int)[0] == v@[i as int]);
            assert(v@.subrange(i as int, n as int).drop_first() =~= v@.subrange(
                i + 1 as int,
                n as int,
            ));
        }
        i = i + 1;
    }
    i
}

/// Splits `s` at every newline; the split always has one more piece than `s`
/// has newlines, so a trailing newline yields a final empty piece.
pub open spec fn split_nl(s: Seq<char>) -> Seq<Seq<char>>
    decreases s.len(),
{
    if s.len() == 0 {
        seq![Seq::<char>::empty()]
    } else if s[0] == '\n' {
        seq![Seq::<char>::empty()] + split_nl(s.drop_first())
    } else {
        let rest = split_nl(s.drop_first());
        seq![seq![s[0]] + rest[0]] + rest.drop_first()
    }
}

/// `l` with one trailing carriage return removed, if it ends in one.
pub open spec fn strip_cr(l: Seq<char>) -> Seq<char> {
    if l.len() > 0 && l[l.len() - 1] == '\r' { l.drop_last() } else { l }
}

/// The lines of `s`, as `str::lines` yields them: terminated by `\n` or
/// `\r\n`, with the terminator removed and no final empty line.
pub open spec fn lines_spec(s: Seq<char>) -> Seq<Seq<char>> {
    let ps = split_nl(s);
    if ps.last().len() == 0 {
        ps.drop_last().map_values(|l: Seq<char>| strip_cr(l))
    } else {
        ps.drop_last().map_values(|l: Seq<char>| strip_cr(l)).push(ps.last())
    }
}

proof fn lemma_split_nl_len(s: Seq<char>)
    ensures
        split_nl(s).len() >= 1,
    decreases s.len(),
{
    if s.len() != 0 {
        lemma_split_nl_len(s.drop_first());
    }
}

proof fn lemma_split_nl_no_nl(s: Seq<char>)
    requires
        forall|j: int| 0 <= j < s.len() ==> s[j] != '\n',
    ensures
        split_nl(s) =~~= seq![s],
    decreases s.len(),
{
    if s.len() == 0 {
        assert(s =~= Seq::<char>::empty());
    } else {
        lemma_split_nl_no_nl(s.drop_first());
        assert(seq![s[0]] + s.drop_first() =~= s);
    }
}

proof fn lemma_split_nl_at(s: Seq<char>, k: int)
    requires
        0 <= k < s.len(),
        s[k] == '\n',
        forall|j: int| 0 <= j < k ==> s[j] != '\n',
    ensures
        split_nl(s) =~~= seq![s.take(k)] + split_nl(s.subrange(k + 1, s.len() as int)),
    decreases k,
{
    lemma_split_nl_len(s.drop_first());
    if k == 0 {
        assert(s.take(0) =~= Seq::<char>::empty());
        assert(s.drop_first() =~= s.subrange(1, s.len() as int));
    } else {
        let t = s.drop_first();
        lemma_split_nl_at(t, k - 1);
        lemma_split_nl_len(t.subrange(k, t.len() as int));
        assert(t.subrange(k, t.len() as int) =~= s.subrange(k + 1, s.len() as int));
        assert(t.take(k - 1) =~= s.take(k).drop_first());
        assert(seq![s[0]] + s.take(k).drop_first() =~= s.take(k));
    }
}

/// Splits a character vector into its lines; see [`lines_spec`].
pub fn split_lines(cs: &Vec<char>) -> (r: Vec<Vec<char>>)
    ensures
        r.deep_view() == lines_spec(cs@),
{
    let n = cs.len();
    let mut out: Vec<Vec<char>> = Vec::new();
    let mut start: usize = 0;
    let mut i: usize = 0;
    let ghost mut done: Seq<Seq<char>> = Seq::empty();
    proof {
        assert(cs@.subrange(0, n as int) =~= cs@);
        assert(Seq::<Seq<char>>::empty() + split_nl(cs@) =~= split_nl(cs@));
        assert(out.deep_view() =~~= done.map_values(|l: Seq<char>| strip_cr(l)));
    }
    while i < n
        invariant
            0 <= start <= i <= n == cs@.len(),
            forall|j: int| start <= j < i ==> cs@[j] != '\n',
            split_nl(cs@) == done + split_nl(cs@.subrange(start as int, n as int)),
            out.deep_view() == done.map_values(|l: Seq<char>| strip_cr(l)),
        decreases n - i,
    {
        if cs[i] == '\n' {
            let end: usize = if i > start && cs[i - 1] == '\r' {
                i - 1
            } else {
                i
            };
            let piece = subvec(cs, start, end);
            let ghost raw = cs@.subrange(start as int, i as int);
            let ghost prev_dv = out.deep_view();
            let ghost prev_view = out@;
            proof {
                let sfx = cs@.subrange(start as int, n as int);
                lemma_split_nl_at(sfx, i - start);
                assert(sfx.take(i - start) =~= raw);
                assert(sfx.subrange(i - start + 1, sfx.len() as int) =~= cs@.subrange(
                    i + 1 as int,
                    n as int,
                ));
                if i > start && cs@[i as int - 1] == '\r' {
                    assert(raw.drop_last() =~= cs@.subrange(start as int, i as int - 1));
                    assert(piece@ == strip_cr(raw));
                } else {
                    assert(piece@ == strip_cr(raw));
                }
                assert(split_nl(cs@) =~~= done.push(raw) + split_nl(
                    cs@.subrange(i + 1 as int, n as int),
                ));
            }
            out.push(piece);
            proof {
                assert(out@ == prev_view.push(piece));
                assert(out.deep_view() =~~= prev_dv.push(piece@));
                assert(done.push(raw).map_values(|l: Seq<char>| strip_cr(l)) =~~= done.map_values(
                    |l: Seq<char>| strip_cr(l),
                ).push(strip_cr(raw)));
                done = done.push(raw);
            }
            start = i + 1;
        }
        i = i + 1;
    }
    proof {
        lemma_split_nl_no_nl(cs@.subrange(start as int, n as int));
    }
    if start < n {
        let last = subvec(cs, start, n);
        let ghost prev_dv = out.deep_view();
        let ghost prev_view = out@;
        out.push(last);
        proof {
            let q = cs@.subrange(start as int, n as int);
            let ps = split_nl(cs@);
            assert(ps =~~= done + seq![q]);
            assert(ps.last() == q);
            assert(q.len() > 0);
            assert(ps.drop_last() =~= done);
            assert(out@ == prev_view.push(last));
            assert(out.deep_view() =~~= prev_dv.push(q));
        }
    } else {
        proof {
            let q = cs@.subrange(start as int, n as int);
            let ps = split_nl(cs@);
            assert(q.len() == 0);
            assert(ps =~~= done + seq![q]);
            assert(ps.last() == q);
            assert(ps.drop_last() =~= done);
        }
    }
    out
}

/// Whether `a` begins with `b`.
pub fn str_starts_with(a: &str, b: &str) -> (r: bool)
    ensures
        r == (a@.len() >= b@.len() && a@.take(b@.len() as int) == b@),
{
    let av = str_chars(a);
    let bv = str_chars(b);
    if av.len() < bv.len() {
        return false;
    }
    let n = bv.len();
    let mut i: usize = 0;
    while i < n
        invariant
            i <= n == b@.len(),
            n <= a@.len(),
            av@ == a@ && bv@ == b@,
            forall|j: int| 0 <= j < i ==> a@[j] == b@[j],
        decreases n - i,
    {
        if av[i] != bv[i] {
            proof {
                assert(a@.take(b@.len() as int)[i as int] != b@[i as int]);
            }
            return false;
        }
        i = i + 1;
    }
    proof {
        assert(a@.take(b@.len() as int) =~= b@);
    }
    true
}

/// The characters of `s` from position `k` on, as a fresh string.
pub fn str_skip(s: &str, k: usize) -> (r: String)
    requires
        k <= s@.len(),
    ensures
        r@ == s@.skip(k as int),
{
    let cs = str_chars(s);
    let piece = subvec(&cs, k, cs.len());
    proof {
        assert(piece@ =~= s@.skip(k as int));
    }
    chars_string(piece.as_slice())
}

/// The number of characters of `s`.
pub fn str_char_len(s: &str) -> (r: usize)
    ensures
        r == s@.len(),
{
    let cs = str_chars(s);
    cs.len()
}

/// Filtering a sequence extended by one element keeps the filtered prefix and
/// appends the element exactly when it passes.
pub proof fn lemma_filter_push<A>(s: Seq<A>, pred: spec_fn(A) -> bool, x: A)
    ensures
        s.push(x).filter(pred) == s.filter(pred) + (if pred(x) {
            seq![x]
        } else {
            Seq::<A>::empty()
        }),
{
    broadcast use Seq::filter_distributes_over_add;

    assert(s.push(x) =~= s + seq![x]);
    reveal_with_fuel(Seq::filter, 2);
    assert(seq![x].drop_last() =~= Seq::<A>::empty());
    assert(seq![x].filter(pred) == (if pred(x) {
        seq![x]
    } else {
        Seq::<A>::empty()
    }));
}

} // verus!
