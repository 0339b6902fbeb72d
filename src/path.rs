//! The `FuzzyPath` value type and the executable normalization.
use vstd::prelude::*;

use core::cmp::Ordering;
use std::borrow::Borrow;
use std::path::PathBuf;
use std::str::FromStr;
use vstd::std_specs::cmp::PartialOrdSpec;

use crate::normal_form::{
    collapse,
    ends_with_slash,
    is_normalized,
    lemma_normalize_idempotent,
    lemma_normalize_twice,
    lower_of,
    lowers_cleanly,
    normalize,
    sep,
    trim,
};
use crate::ordering::{
    compare_chars,
    lemma_lt_asymmetric,
    lemma_lt_irreflexive,
    lemma_lt_total,
    lemma_lt_transitive,
    text_cmp,
    text_lt,
};

verus! {

broadcast use vstd::string::axiom_spec_iter;

/// Relies on `char::to_lowercase`: appends the lowercase mapping of `c`, which
/// depends on `c` alone and is one or more characters long.
#[verifier::external_body]
fn push_lowercase(out: &mut String, c: char)
    ensures
        final(out)@ == old(out)@ + lower_of(c),
        final(out)@.len() > old(out)@.len(),
{
    out.extend(c.to_lowercase())
}

#[verifier::external_type_specification]
#[verifier::external_body]
pub struct ExPathBuf(PathBuf);

/// The text of a platform path, as `Path::to_string_lossy` reads it.
pub uninterp spec fn path_text_of(p: PathBuf) -> Seq<char>;

/// Relies on `Path::to_string_lossy`: the text of the path, with what is not
/// Unicode replaced as the platform does it; it depends on the path alone.
#[verifier::external_body]
fn path_text_lossy(p: &PathBuf) -> (r: String)
    ensures
        r@ == path_text_of(*p),
{
    p.to_string_lossy().into_owned()
}

/// Relies on `PathBuf::from(String)`: the path holds the text as it is, so
/// `to_string_lossy` reads the same text back.
#[verifier::external_body]
fn path_from_text(s: String) -> (r: PathBuf)
    ensures
        path_text_of(r) == s@,
{
    PathBuf::from(s)
}

/// The characters of `s`.
fn chars_of(s: &str) -> (r: Vec<char>)
    ensures
        r@ == s@,
{
    let mut v: Vec<char> = Vec::new();
    for c in it: s.chars()
        invariant
            it.seq() == s@,
            v@ == s@.take(it.index() as int),
    {
        assert(s@.take(it.index() + 1) =~= v@.push(c));
        v.push(c);
    }
    assert(s@.take(s@.len() as int) =~= s@);
    v
}

/// The normal form of `s`: backslashes become slashes, trailing slashes go
/// (but for a lone root slash), runs of slashes become one, and every other
/// character is lowercased.
pub fn normalized_text(s: &str) -> (r: String)
    ensures
        r@ == normalize(s@),
{
    let chars = chars_of(s);
    let mut v: Vec<char> = Vec::new();
    let mut k: usize = 0;
    while k < chars.len()
        invariant
            chars@ == s@,
            k <= chars.len(),
            v@ == sep(s@.take(k as int)),
        decreases chars.len() - k,
    {
        let c = chars[k];
        assert(sep(s@.take(k + 1)) =~= sep(s@.take(k as int)).push(
            if c == '\\' {
                '/'
            } else {
                c
            },
        ));
        if c == '\\' {
            v.push('/');
        } else {
            v.push(c);
        }
        k = k + 1;
    }
    assert(s@.take(s@.len() as int) =~= s@);

    let mut n: usize = v.len();
    assert(v@.take(n as int) =~= v@);
    while n >= 2 && v[n - 1] == '/'
        invariant
            n <= v.len(),
            trim(v@.take(n as int)) == trim(v@),
        decreases n,
    {
        assert(v@.take(n as int).drop_last() =~= v@.take(n - 1));
        n = n - 1;
    }
    let ghost u = v@.take(n as int);
    assert(trim(u) == u);

    let mut out = String::new();
    let mut i: usize = 0;
    while i < n
        invariant
            n <= v.len(),
            u == v@.take(n as int),
            i <= n,
            out@ == collapse(u.take(i as int)),
        decreases n - i,
    {
        let c = v[i];
        let ghost p = u.take(i as int);
        assert(u.take(i + 1).drop_last() =~= p);
        assert(u.take(i + 1).last() == c);
        assert(ends_with_slash(p) == (i > 0 && v@[i - 1] == '/'));
        if c == '/' {
            if i == 0 || v[i - 1] != '/' {
                proof {
                    reveal_strlit("/");
                }
                assert(out@ + "/"@ =~= out@.push('/'));
                out.append("/");
            }
        } else {
            push_lowercase(&mut out, c);
        }
        i = i + 1;
    }
    assert(u.take(n as int) =~= u);
    out
}

/// Whether `c` is its own lowercase mapping.
fn is_own_lowercase(c: char) -> (r: bool)
    ensures
        r == (lower_of(c) == seq![c]),
{
    let mut l = String::new();
    push_lowercase(&mut l, c);
    assert(l@ =~= lower_of(c));
    let l = l.as_str();
    if l.unicode_len() == 1 {
        let d = l.get_char(0);
        assert(l@ =~= seq![d]) by {
            assert(l@.len() == 1);
        }
        d == c
    } else {
        assert(seq![c].len() == 1);
        false
    }
}

/// Whether `s` meets the invariants of a stored normal form.
pub fn is_normalized_text(s: &str) -> (r: bool)
    ensures
        r == is_normalized(s@),
{
    let v = chars_of(s);
    let n = v.len();
    if n >= 2 && v[n - 1] == '/' {
        return false;
    }
    let mut i: usize = 0;
    while i < n
        invariant
            n == v.len(),
            v@ == s@,
            i <= n,
            n >= 2 ==> v@[n - 1] != '/',
            forall|j: int| 0 <= j < i ==> v@[j] != '\\',
            forall|j: int| 0 <= j < i && j < n - 1 ==> !(#[trigger] v@[j] == '/' && v@[j + 1] == '/'),
            forall|j: int| 0 <= j < i && v@[j] != '/' ==> lower_of(v@[j]) == seq![v@[j]],
        decreases n - i,
    {
        let c = v[i];
        if c == '\\' {
            return false;
        }
        if c == '/' {
            if i + 1 < n && v[i + 1] == '/' {
                return false;
            }
        } else if !is_own_lowercase(c) {
            return false;
        }
        i = i + 1;
    }
    true
}

/// A lossy representation of a path as a `String`, for quick and approximate
/// comparison.
///
/// Two values compare equal exactly when their normal forms are equal: letter
/// case, the direction of separators, repeated slashes and trailing slashes
/// (but for the root slash) make no difference. Paths of different platforms
/// are not unified: a Windows path with a drive letter and a POSIX absolute
/// path stay apart, and backslashes in POSIX file names become separators.
///
/// The type compares only with itself, so that a text must pass through the
/// normalization before it can be compared.
#[derive(Debug, Eq, Ord, Hash, Clone)]
pub struct FuzzyPath(String);

impl View for FuzzyPath {
    type V = Seq<char>;

    closed spec fn view(&self) -> Seq<char> {
        self.0@
    }
}

impl FuzzyPath {
    /// Wraps a text that is already in normal form, without normalizing it.
    pub fn from_str_unchecked(s: String) -> (r: FuzzyPath)
        requires
            is_normalized(s@),
        ensures
            r@ == s@,
    {
        FuzzyPath(s)
    }

    /// Wraps `s` as it is when it already meets the invariants of a stored
    /// normal form, and gives `None` otherwise.
    pub fn try_from_normalized(s: String) -> (r: Option<FuzzyPath>)
        ensures
            r matches Some(p) ==> p@ == s@,
            r is Some == is_normalized(s@),
    {
        if is_normalized_text(s.as_str()) {
            Some(FuzzyPath::from_str_unchecked(s))
        } else {
            None
        }
    }

    /// The normalized text, consuming the value. Lossy: not every path is
    /// UTF-8, and the original spelling is gone.
    pub fn into_string_lossy(self) -> (r: String)
        ensures
            r@ == self@,
    {
        self.0
    }

    /// The normalized text. Lossy: not every path is UTF-8, and the original
    /// spelling is gone.
    pub fn as_str_lossy(&self) -> (r: &str)
        ensures
            r@ == self@,
    {
        self.0.as_str()
    }

    /// The normalized text, as an owned `String`.
    pub fn to_string(&self) -> (r: String)
        ensures
            r@ == self@,
    {
        self.0.clone()
    }
}

impl<'a> From<&'a str> for FuzzyPath {
    fn from(s: &'a str) -> (r: FuzzyPath)
        ensures
            r@ == normalize(s@),
    {
        FuzzyPath(normalized_text(s))
    }
}

impl<'a> vstd::std_specs::convert::FromSpecImpl<&'a str> for FuzzyPath {
    open spec fn obeys_from_spec() -> bool {
        false
    }

    open spec fn from_spec(v: &'a str) -> FuzzyPath {
        arbitrary()
    }
}

impl From<String> for FuzzyPath {
    fn from(s: String) -> (r: FuzzyPath)
        ensures
            r@ == normalize(s@),
    {
        FuzzyPath(normalized_text(s.as_str()))
    }
}

impl vstd::std_specs::convert::FromSpecImpl<String> for FuzzyPath {
    open spec fn obeys_from_spec() -> bool {
        false
    }

    open spec fn from_spec(v: String) -> FuzzyPath {
        arbitrary()
    }
}

impl From<PathBuf> for FuzzyPath {
    fn from(p: PathBuf) -> (r: FuzzyPath)
        ensures
            r@ == normalize(path_text_of(p)),
    {
        let text = path_text_lossy(&p);
        FuzzyPath(normalized_text(text.as_str()))
    }
}

impl vstd::std_specs::convert::FromSpecImpl<PathBuf> for FuzzyPath {
    open spec fn obeys_from_spec() -> bool {
        false
    }

    open spec fn from_spec(v: PathBuf) -> FuzzyPath {
        arbitrary()
    }
}

impl From<FuzzyPath> for PathBuf {
    fn from(f: FuzzyPath) -> (r: PathBuf)
        ensures
            path_text_of(r) == f@,
    {
        path_from_text(f.0)
    }
}

impl vstd::std_specs::convert::FromSpecImpl<FuzzyPath> for PathBuf {
    open spec fn obeys_from_spec() -> bool {
        false
    }

    open spec fn from_spec(v: FuzzyPath) -> PathBuf {
        arbitrary()
    }
}

impl From<FuzzyPath> for String {
    fn from(f: FuzzyPath) -> (r: String)
        ensures
            r@ == f@,
    {
        f.0
    }
}

impl vstd::std_specs::convert::FromSpecImpl<FuzzyPath> for String {
    open spec fn obeys_from_spec() -> bool {
        false
    }

    open spec fn from_spec(v: FuzzyPath) -> String {
        arbitrary()
    }
}

impl Default for FuzzyPath {
    fn default() -> (r: FuzzyPath)
        ensures
            r@ == Seq::<char>::empty(),
    {
        FuzzyPath(String::new())
    }
}

impl PartialEq for FuzzyPath {
    fn eq(&self, other: &FuzzyPath) -> (r: bool)
        ensures
            r == (self@ == other@),
    {
        self.0 == other.0
    }
}

impl vstd::std_specs::cmp::PartialEqSpecImpl for FuzzyPath {
    open spec fn obeys_eq_spec() -> bool {
        true
    }

    open spec fn eq_spec(&self, other: &FuzzyPath) -> bool {
        self@ == other@
    }
}

impl PartialOrd for FuzzyPath {
    fn partial_cmp(&self, other: &FuzzyPath) -> (r: Option<Ordering>)
        ensures
            r == Some(text_cmp(self@, other@)),
    {
        let a = chars_of(self.0.as_str());
        let b = chars_of(other.0.as_str());
        Some(compare_chars(&a, &b))
    }
}

impl vstd::std_specs::cmp::PartialOrdSpecImpl for FuzzyPath {
    open spec fn obeys_partial_cmp_spec() -> bool {
        true
    }

    open spec fn partial_cmp_spec(&self, other: &FuzzyPath) -> Option<Ordering> {
        Some(text_cmp(self@, other@))
    }
}

impl AsRef<String> for FuzzyPath {
    fn as_ref(&self) -> (r: &String)
        ensures
            ({
                let t: &String = r;
                t@
            }) == self@,
    {
        &self.0
    }
}

impl AsRef<str> for FuzzyPath {
    fn as_ref(&self) -> (r: &str)
        ensures
            ({
                let t: &str = r;
                t@
            }) == self@,
    {
        self.0.as_str()
    }
}

impl Borrow<str> for FuzzyPath {
    fn borrow(&self) -> (r: &str)
        ensures
            ({
                let t: &str = r;
                t@
            }) == self@,
    {
        self.0.as_str()
    }
}

impl Borrow<String> for FuzzyPath {
    fn borrow(&self) -> (r: &String)
        ensures
            ({
                let t: &String = r;
                t@
            }) == self@,
    {
        &self.0
    }
}

impl FromStr for FuzzyPath {
    type Err = core::convert::Infallible;

    fn from_str(s: &str) -> (r: Result<FuzzyPath, core::convert::Infallible>)
        ensures
            r matches Ok(p) && p@ == normalize(s@),
    {
        Ok(FuzzyPath::from(s))
    }
}

/// `partial_cmp` orders paths strictly and totally by their normalized text,
/// consistently with `==`: it always answers, a path is equal to itself,
/// `Equal` means equal texts, `Less` one way is `Greater` the other way, and
/// `Less` is transitive.
pub proof fn lemma_path_order(a: FuzzyPath, b: FuzzyPath, c: FuzzyPath)
    ensures
        a.partial_cmp_spec(&b) is Some,
        a.partial_cmp_spec(&a) == Some(Ordering::Equal),
        (a.partial_cmp_spec(&b) == Some(Ordering::Equal)) == (a@ == b@),
        (a.partial_cmp_spec(&b) == Some(Ordering::Less)) == (b.partial_cmp_spec(&a) == Some(
            Ordering::Greater,
        )),
        a.partial_cmp_spec(&b) == Some(Ordering::Less) && b.partial_cmp_spec(&c) == Some(
            Ordering::Less,
        ) ==> a.partial_cmp_spec(&c) == Some(Ordering::Less),
{
    lemma_lt_irreflexive(a@);
    if a@ != b@ {
        lemma_lt_total(a@, b@);
        if text_lt(a@, b@) {
            lemma_lt_asymmetric(a@, b@);
        } else {
            lemma_lt_asymmetric(b@, a@);
        }
    }
    if text_lt(a@, b@) && text_lt(b@, c@) && a@ != b@ && b@ != c@ {
        lemma_lt_transitive(a@, b@, c@);
        if a@ == c@ {
            lemma_lt_asymmetric(a@, b@);
        }
    }
}

/// A value in normal form, converted to a platform path and back through the
/// same normalization, comes back unchanged.
pub proof fn lemma_path_round_trip(f: FuzzyPath, p: PathBuf)
    requires
        is_normalized(f@),
        path_text_of(p) == f@,
    ensures
        normalize(path_text_of(p)) == f@,
{
    lemma_normalize_idempotent(f@);
}

/// A value normalized from a text `s` whose characters lower cleanly,
/// converted to a platform path and back through the same normalization,
/// comes back unchanged.
pub proof fn lemma_path_round_trip_from_text(s: Seq<char>, p: PathBuf)
    requires
        forall|i: int| 0 <= i < s.len() && s[i] != '/' && s[i] != '\\' ==> lowers_cleanly(
            #[trigger] s[i],
        ),
        path_text_of(p) == normalize(s),
    ensures
        normalize(path_text_of(p)) == normalize(s),
{
    lemma_normalize_twice(s);
}

} // verus!
