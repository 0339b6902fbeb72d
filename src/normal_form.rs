//! The normal form of a path text, stated as spec functions, and the laws that
//! it obeys.
use vstd::prelude::*;

verus! {

/// The lowercase mapping of one character, as `char::to_lowercase` yields it.
pub uninterp spec fn lower_of(c: char) -> Seq<char>;

/// Every backslash turned into a forward slash.
pub open spec fn sep(s: Seq<char>) -> Seq<char> {
    s.map_values(|c: char| if c == '\\' { '/' } else { c })
}

/// Trailing slashes removed, but never the only character left.
pub open spec fn trim(s: Seq<char>) -> Seq<char>
    decreases s.len(),
{
    if s.len() >= 2 && s.last() == '/' {
        trim(s.drop_last())
    } else {
        s
    }
}

/// Whether the last character of `s` is a slash.
pub open spec fn ends_with_slash(s: Seq<char>) -> bool {
    s.len() > 0 && s.last() == '/'
}

/// Runs of slashes collapsed to one, every other character lowercased.
pub open spec fn collapse(s: Seq<char>) -> Seq<char>
    decreases s.len(),
{
    if s.len() == 0 {
        Seq::empty()
    } else {
        let p = s.drop_last();
        let c = s.last();
        if c == '/' {
            if ends_with_slash(p) {
                collapse(p)
            } else {
                collapse(p).push('/')
            }
        } else {
            collapse(p) + lower_of(c)
        }
    }
}

/// The normal form of a path text.
pub open spec fn normalize(s: Seq<char>) -> Seq<char> {
    collapse(trim(sep(s)))
}

/// The invariants of a stored normal form: no backslash, no two slashes in a
/// row, no trailing slash unless the text is the root slash alone, and every
/// other character already its own lowercase mapping.
pub open spec fn is_normalized(s: Seq<char>) -> bool {
    &&& forall|i: int| 0 <= i < s.len() ==> s[i] != '\\'
    &&& forall|i: int| 0 <= i < s.len() - 1 ==> !(#[trigger] s[i] == '/' && s[i + 1] == '/')
    &&& (s.len() >= 2 ==> s.last() != '/')
    &&& forall|i: int| 0 <= i < s.len() && s[i] != '/' ==> lower_of(s[i]) == seq![s[i]]
}

/// `n` slashes.
pub open spec fn slashes(n: nat) -> Seq<char> {
    Seq::new(n, |i: int| '/')
}

/// No two slashes in a row, and every other character its own lowercase
/// mapping: the texts that `collapse` leaves as they are.
pub open spec fn is_collapsed(s: Seq<char>) -> bool {
    &&& forall|i: int| 0 <= i < s.len() - 1 ==> !(#[trigger] s[i] == '/' && s[i + 1] == '/')
    &&& forall|i: int| 0 <= i < s.len() && s[i] != '/' ==> lower_of(s[i]) == seq![s[i]]
}

proof fn lemma_collapse_fixed(s: Seq<char>)
    requires
        is_collapsed(s),
    ensures
        collapse(s) == s,
    decreases s.len(),
{
    if s.len() > 0 {
        let p = s.drop_last();
        assert(is_collapsed(p)) by {
            assert forall|i: int| 0 <= i < p.len() - 1 implies !(#[trigger] p[i] == '/' && p[i
                + 1] == '/') by {
                assert(p[i] == s[i] && p[i + 1] == s[i + 1]);
            }
            assert forall|i: int| 0 <= i < p.len() && p[i] != '/' implies lower_of(p[i]) == seq![
                p[i],
            ] by {
                assert(p[i] == s[i]);
            }
        }
        lemma_collapse_fixed(p);
        if s.last() == '/' {
            if ends_with_slash(p) {
                assert(!(s[s.len() - 2] == '/' && s[s.len() - 1] == '/'));
            }
            assert(p.push('/') =~= s);
        } else {
            assert(lower_of(s[s.len() - 1]) == seq![s.last()]);
            assert(p + seq![s.last()] =~= s);
        }
    }
}

/// Normalizing a text that already meets the invariants of a normal form gives
/// the same text back.
pub proof fn lemma_normalize_idempotent(s: Seq<char>)
    requires
        is_normalized(s),
    ensures
        normalize(s) == s,
{
    assert(sep(s) =~= s);
    if s.len() >= 2 {
        assert(s.last() != '/');
    }
    assert(trim(s) == s);
    lemma_collapse_fixed(s);
}

/// Texts that agree once backslashes are turned into slashes have the same
/// normal form.
pub proof fn lemma_separator_insensitive(s: Seq<char>, t: Seq<char>)
    requires
        sep(s) == sep(t),
    ensures
        normalize(s) == normalize(t),
{
}

/// A trailing slash does not change the normal form of a non-empty text.
pub proof fn lemma_trailing_slash(s: Seq<char>)
    requires
        s.len() >= 1,
    ensures
        normalize(s.push('/')) == normalize(s),
{
    assert(sep(s.push('/')) =~= sep(s).push('/'));
    assert(sep(s).push('/').drop_last() =~= sep(s));
}

/// The empty text normalizes to the empty text.
pub proof fn lemma_empty()
    ensures
        normalize(Seq::empty()) == Seq::<char>::empty(),
{
    assert(sep(Seq::empty()) =~= Seq::<char>::empty());
}

/// A non-empty text made of separators only normalizes to the root slash.
pub proof fn lemma_root(s: Seq<char>)
    requires
        s.len() >= 1,
        forall|i: int| 0 <= i < s.len() ==> s[i] == '/' || s[i] == '\\',
    ensures
        normalize(s) == seq!['/'],
{
    assert(sep(s) =~= slashes(s.len()));
    lemma_trim_slashes(seq!['/'], (s.len() - 1) as nat);
    assert(seq!['/'] + slashes((s.len() - 1) as nat) =~= slashes(s.len()));
    assert(seq!['/'].drop_last() =~= Seq::<char>::empty());
    assert(collapse(seq!['/']) == collapse(Seq::<char>::empty()).push('/'));
    assert(Seq::<char>::empty().push('/') =~= seq!['/']);
}

proof fn lemma_trim_slashes(x: Seq<char>, n: nat)
    requires
        x.len() >= 1,
    ensures
        trim(x + slashes(n)) == trim(x),
    decreases n,
{
    if n > 0 {
        let y = x + slashes(n);
        assert(y.drop_last() =~= x + slashes((n - 1) as nat));
        lemma_trim_slashes(x, (n - 1) as nat);
    } else {
        assert(x + slashes(0) =~= x);
    }
}

proof fn lemma_trim_nonslash(x: Seq<char>, y: Seq<char>)
    requires
        exists|i: int| 0 <= i < y.len() && y[i] != '/',
    ensures
        trim(x + y) == x + trim(y),
    decreases y.len(),
{
    let xy = x + y;
    if y.last() == '/' {
        let i = choose|i: int| 0 <= i < y.len() && y[i] != '/';
        assert(y.drop_last()[i] != '/');
        assert(xy.drop_last() =~= x + y.drop_last());
        lemma_trim_nonslash(x, y.drop_last());
    }
}

/// What `collapse` does to a suffix depends only on what it did to the prefix
/// and on whether the prefix ends in a slash.
proof fn lemma_collapse_congruent(x: Seq<char>, y: Seq<char>, r: Seq<char>)
    requires
        collapse(x) == collapse(y),
        ends_with_slash(x) == ends_with_slash(y),
    ensures
        collapse(x + r) == collapse(y + r),
    decreases r.len(),
{
    if r.len() == 0 {
        assert(x + r =~= x);
        assert(y + r =~= y);
    } else {
        let q = r.drop_last();
        lemma_collapse_congruent(x, y, q);
        assert((x + r).drop_last() =~= x + q);
        assert((y + r).drop_last() =~= y + q);
        if q.len() == 0 {
            assert(x + q =~= x);
            assert(y + q =~= y);
        } else {
            assert((x + q).last() == q.last());
            assert((y + q).last() == q.last());
        }
    }
}

proof fn lemma_collapse_double(p: Seq<char>, q: Seq<char>)
    ensures
        collapse(trim(p + seq!['/', '/'] + q)) == collapse(trim(p + seq!['/'] + q)),
{
    let one = p + seq!['/'];
    let two = p + seq!['/', '/'];
    assert(p + seq!['/', '/'] + q =~= two + q);
    assert(p + seq!['/'] + q =~= one + q);
    if exists|i: int| 0 <= i < q.len() && q[i] != '/' {
        lemma_trim_nonslash(two, q);
        lemma_trim_nonslash(one, q);
        assert(two.drop_last() =~= one);
        assert(collapse(two) == collapse(one));
        lemma_collapse_congruent(two, one, trim(q));
    } else {
        assert(q =~= slashes(q.len()));
        assert(two + q =~= one + slashes(q.len() + 1));
        lemma_trim_slashes(one, q.len() + 1);
        lemma_trim_slashes(one, q.len());
    }
}

proof fn lemma_sep_concat(a: Seq<char>, b: Seq<char>)
    ensures
        sep(a + b) == sep(a) + sep(b),
{
    assert(sep(a + b) =~= sep(a) + sep(b));
}

/// Replacing a run of `k >= 1` slashes by a single slash does not change the
/// normal form.
pub proof fn lemma_slash_run(a: Seq<char>, k: nat, b: Seq<char>)
    requires
        k >= 1,
    ensures
        normalize(a + slashes(k) + b) == normalize(a + seq!['/'] + b),
    decreases k,
{
    if k >= 2 {
        lemma_slash_run(a, (k - 1) as nat, b);
        let m = (k - 2) as nat;
        let p = sep(a) + slashes(m);
        lemma_sep_concat(a + slashes(k), b);
        lemma_sep_concat(a, slashes(k));
        lemma_sep_concat(a + slashes((k - 1) as nat), b);
        lemma_sep_concat(a, slashes((k - 1) as nat));
        assert(sep(slashes(k)) =~= slashes(k));
        assert(sep(slashes((k - 1) as nat)) =~= slashes((k - 1) as nat));
        assert(sep(a) + slashes(k) + sep(b) =~= p + seq!['/', '/'] + sep(b));
        assert(sep(a) + slashes((k - 1) as nat) + sep(b) =~= p + seq!['/'] + sep(b));
        lemma_collapse_double(p, sep(b));
    } else {
        assert(slashes(k) =~= seq!['/']);
    }
}

/// Two texts of equal length whose characters differ only in case (each
/// differing pair is made of non-separators with the same lowercase mapping)
/// have the same normal form.
pub proof fn lemma_case_insensitive(s: Seq<char>, t: Seq<char>)
    requires
        s.len() == t.len(),
        forall|i: int|
            0 <= i < s.len() ==> s[i] == t[i] || (s[i] != '/' && s[i] != '\\' && t[i] != '/'
                && t[i] != '\\' && lower_of(s[i]) == lower_of(t[i])),
    ensures
        normalize(s) == normalize(t),
{
    let x = sep(s);
    let y = sep(t);
    assert forall|i: int| 0 <= i < x.len() implies (x[i] == '/') == (y[i] == '/') && (x[i]
        == '/' || x[i] == y[i] || lower_of(x[i]) == lower_of(y[i])) by {}
    lemma_trim_case(x, y);
    lemma_collapse_case(trim(x), trim(y));
}

/// The relation of `lemma_case_insensitive`, after separators are unified.
pub open spec fn same_but_case(x: Seq<char>, y: Seq<char>) -> bool {
    &&& x.len() == y.len()
    &&& forall|i: int|
        0 <= i < x.len() ==> (x[i] == '/') == (y[i] == '/') && (x[i] == '/' || x[i] == y[i]
            || lower_of(x[i]) == lower_of(y[i]))
}

proof fn lemma_trim_case(x: Seq<char>, y: Seq<char>)
    requires
        same_but_case(x, y),
    ensures
        same_but_case(trim(x), trim(y)),
    decreases x.len(),
{
    if x.len() >= 2 && x.last() == '/' {
        assert(y.last() == '/');
        assert(same_but_case(x.drop_last(), y.drop_last()));
        lemma_trim_case(x.drop_last(), y.drop_last());
    } else if x.len() >= 2 {
        assert(y.last() != '/');
    }
}

proof fn lemma_collapse_case(x: Seq<char>, y: Seq<char>)
    requires
        same_but_case(x, y),
    ensures
        collapse(x) == collapse(y),
    decreases x.len(),
{
    if x.len() > 0 {
        assert(same_but_case(x.drop_last(), y.drop_last()));
        lemma_collapse_case(x.drop_last(), y.drop_last());
        if x.len() >= 2 {
            assert(x.drop_last().last() == x[x.len() - 2]);
            assert(y.drop_last().last() == y[y.len() - 2]);
        }
        if x.last() != '/' && x.last() != y.last() {
            assert(lower_of(x.last()) == lower_of(y.last()));
        }
    }
}

/// The lowercase mapping of `c` is non-empty, holds no separator, and each of
/// its characters is its own lowercase mapping.
pub open spec fn lowers_cleanly(c: char) -> bool {
    let l = lower_of(c);
    &&& l.len() >= 1
    &&& forall|j: int|
        0 <= j < l.len() ==> #[trigger] l[j] != '/' && l[j] != '\\' && lower_of(l[j]) == seq![
            l[j],
        ]
}

/// Every character of `y` but the slashes is no backslash and lowers cleanly.
pub open spec fn clean_chars(y: Seq<char>) -> bool {
    forall|i: int| 0 <= i < y.len() && #[trigger] y[i] != '/' ==> y[i] != '\\' && lowers_cleanly(y[i])
}

proof fn lemma_collapse_shape(y: Seq<char>)
    requires
        clean_chars(y),
    ensures
        is_collapsed(collapse(y)),
        forall|i: int| 0 <= i < collapse(y).len() ==> collapse(y)[i] != '\\',
        ends_with_slash(collapse(y)) == ends_with_slash(y),
    decreases y.len(),
{
    if y.len() > 0 {
        let p = y.drop_last();
        let c = y.last();
        assert(clean_chars(p)) by {
            assert forall|i: int| 0 <= i < p.len() && #[trigger] p[i] != '/' implies p[i] != '\\'
                && lowers_cleanly(p[i]) by {
                assert(p[i] == y[i]);
            }
        }
        lemma_collapse_shape(p);
        let cp = collapse(p);
        if p.len() > 0 {
            assert(p.last() == y[y.len() - 2]);
        }
        if c == '/' {
            if !ends_with_slash(p) {
                let r = cp.push('/');
                assert forall|i: int| 0 <= i < r.len() - 1 implies !(#[trigger] r[i] == '/' && r[i
                    + 1] == '/') by {
                    if i < r.len() - 2 {
                        assert(r[i] == cp[i] && r[i + 1] == cp[i + 1]);
                    }
                }
                assert forall|i: int| 0 <= i < r.len() && r[i] != '/' implies lower_of(r[i]) == seq![
                    r[i],
                ] by {
                    assert(r[i] == cp[i]);
                }
                assert forall|i: int| 0 <= i < r.len() implies r[i] != '\\' by {
                    if i < cp.len() {
                        assert(r[i] == cp[i]);
                    }
                }
            }
        } else {
            assert(y[y.len() - 1] != '/');
            let l = lower_of(c);
            let r = cp + l;
            assert(lowers_cleanly(c));
            assert(l[l.len() - 1] != '/');
            assert(r.last() == l[l.len() - 1]);
            assert forall|i: int| 0 <= i < r.len() - 1 implies !(#[trigger] r[i] == '/' && r[i
                + 1] == '/') by {
                if i < cp.len() - 1 {
                    assert(r[i] == cp[i] && r[i + 1] == cp[i + 1]);
                } else if i == cp.len() - 1 {
                    assert(r[i + 1] == l[0]);
                    assert(l[0] != '/');
                } else {
                    assert(r[i] == l[i - cp.len()]);
                    assert(l[i - cp.len()] != '/');
                }
            }
            assert forall|i: int| 0 <= i < r.len() && r[i] != '/' implies lower_of(r[i]) == seq![
                r[i],
            ] by {
                if i < cp.len() {
                    assert(r[i] == cp[i]);
                } else {
                    assert(r[i] == l[i - cp.len()]);
                    assert(l[i - cp.len()] != '/');
                }
            }
            assert forall|i: int| 0 <= i < r.len() implies r[i] != '\\' by {
                if i < cp.len() {
                    assert(r[i] == cp[i]);
                } else {
                    assert(r[i] == l[i - cp.len()]);
                    assert(l[i - cp.len()] != '/');
                }
            }
        }
    }
}

proof fn lemma_trim_prefix(s: Seq<char>)
    ensures
        trim(s).len() <= s.len(),
        trim(s) == s.take(trim(s).len() as int),
        trim(s).len() >= 2 ==> trim(s).last() != '/',
        s.len() >= 1 ==> trim(s).len() >= 1,
    decreases s.len(),
{
    if s.len() >= 2 && s.last() == '/' {
        lemma_trim_prefix(s.drop_last());
        assert(s.drop_last().take(trim(s).len() as int) =~= s.take(trim(s).len() as int));
    } else {
        assert(s.take(s.len() as int) =~= s);
    }
}

/// Where every character of `s` other than a separator lowers cleanly (its
/// lowercase mapping is non-empty, holds no separator and is already
/// lowercase), its normal form meets the invariants of a stored normal form,
/// and normalizing twice gives what normalizing once gives.
pub proof fn lemma_normalize_twice(s: Seq<char>)
    requires
        forall|i: int| 0 <= i < s.len() && s[i] != '/' && s[i] != '\\' ==> lowers_cleanly(
            #[trigger] s[i],
        ),
    ensures
        is_normalized(normalize(s)),
        normalize(normalize(s)) == normalize(s),
{
    let x = trim(sep(s));
    lemma_trim_prefix(sep(s));
    assert(clean_chars(x)) by {
        assert forall|i: int| 0 <= i < x.len() && #[trigger] x[i] != '/' implies x[i] != '\\'
            && lowers_cleanly(x[i]) by {
            assert(x[i] == sep(s)[i]);
        }
    }
    lemma_collapse_shape(x);
    let n = collapse(x);
    if x.len() > 0 {
        if x.last() == '/' {
            assert(x.len() == 1);
            assert(x.drop_last() =~= Seq::<char>::empty());
            assert(collapse(x.drop_last()) =~= Seq::<char>::empty());
            assert(!ends_with_slash(x.drop_last()));
            assert(n == collapse(x.drop_last()).push('/'));
            assert(n.len() == 1);
        } else {
            assert(x[x.len() - 1] != '/');
            let l = lower_of(x.last());
            assert(lowers_cleanly(x.last()));
            assert(n == collapse(x.drop_last()) + l);
            assert(l[l.len() - 1] != '/');
            assert(n.last() == l[l.len() - 1]);
        }
    }
    assert(is_normalized(n));
    lemma_normalize_idempotent(n);
}

} // verus!
