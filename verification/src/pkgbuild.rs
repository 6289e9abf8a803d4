//! Extraction of the `pkgver` and `pkgrel` fields from recipe text.
//!
//! A field assignment is a line anchored at column zero of the form
//! `pkgver=<value>` with `<value>` matching `[0-9][0-9.]*`, or
//! `pkgrel=<value>` with `<value>` matching `[0-9]+`. The first matching
//! line wins; everything else in the text is ignored.

use vstd::prelude::*;
use vstd::std_specs::cmp::PartialEqSpec;
use vstd::string::*;

use crate::text::digit_char;
use crate::text::is_digit_char;

verus! {

/// A character allowed in a field value: a digit, or a dot where the field
/// admits dotted values.
pub open spec fn value_char(c: char, dots: bool) -> bool {
    digit_char(c) || (dots && c == '.')
}

/// A character allowed in a `pkgver` value.
pub open spec fn version_char(c: char) -> bool {
    value_char(c, true)
}

/// A well-formed `pkgver` value: a digit followed by digits and dots.
pub open spec fn is_version_text(s: Seq<char>) -> bool {
    &&& s.len() > 0
    &&& digit_char(s[0])
    &&& forall|i: int| 0 <= i < s.len() ==> version_char(#[trigger] s[i])
}

/// A well-formed `pkgrel` value: one or more digits.
pub open spec fn is_release_text(s: Seq<char>) -> bool {
    &&& s.len() > 0
    &&& forall|i: int| 0 <= i < s.len() ==> digit_char(#[trigger] s[i])
}

/// Position `i` sits at the start of a line of `t`.
pub open spec fn line_start(t: Seq<char>, i: int) -> bool {
    i == 0 || t[i - 1] == '\n'
}

/// A field assignment for `key` stands at position `i` of `t`: the line
/// starts there, the key follows literally, and a digit opens the value.
pub open spec fn key_match_at(t: Seq<char>, key: Seq<char>, i: int) -> bool {
    &&& 0 <= i
    &&& i + key.len() < t.len()
    &&& line_start(t, i)
    &&& t.subrange(i, i + key.len()) == key
    &&& digit_char(t[i + key.len()])
}

/// The end of the run of value characters that starts at `j`.
pub open spec fn value_end(t: Seq<char>, j: int, dots: bool) -> int
    decreases t.len() - j
        when 0 <= j <= t.len()
{
    if j < t.len() && value_char(t[j], dots) {
        value_end(t, j + 1, dots)
    } else {
        j
    }
}

/// The first position at or after `i` where a `key` assignment stands.
pub open spec fn first_key_match_from(t: Seq<char>, key: Seq<char>, i: int) -> Option<int>
    decreases t.len() - i
        when 0 <= i <= t.len()
{
    if i >= t.len() {
        None
    } else if key_match_at(t, key, i) {
        Some(i)
    } else {
        first_key_match_from(t, key, i + 1)
    }
}

/// The value of the first `key` assignment of `t`, if any line carries one.
pub open spec fn field_value(t: Seq<char>, key: Seq<char>, dots: bool) -> Option<Seq<char>> {
    match first_key_match_from(t, key, 0) {
        Some(i) => Some(t.subrange(i + key.len(), value_end(t, i + key.len(), dots))),
        None => None,
    }
}

/// The `pkgver` value extracted from `t`, if present.
pub open spec fn spec_pkgver(t: Seq<char>) -> Option<Seq<char>> {
    field_value(t, "pkgver="@, true)
}

/// The `pkgrel` value extracted from `t`, if present.
pub open spec fn spec_pkgrel(t: Seq<char>) -> Option<Seq<char>> {
    field_value(t, "pkgrel="@, false)
}

/// A `pkgver` assignment stands at position `i` of `t`.
pub open spec fn ver_match_at(t: Seq<char>, i: int) -> bool {
    key_match_at(t, "pkgver="@, i)
}

/// A `pkgrel` assignment stands at position `i` of `t`.
pub open spec fn rel_match_at(t: Seq<char>, i: int) -> bool {
    key_match_at(t, "pkgrel="@, i)
}

/// The `pkgver` value of the assignment at position `i`.
pub open spec fn ver_value_at(t: Seq<char>, i: int) -> Seq<char> {
    t.subrange(i + "pkgver="@.len(), value_end(t, i + "pkgver="@.len(), true))
}

/// The `pkgrel` value of the assignment at position `i`.
pub open spec fn rel_value_at(t: Seq<char>, i: int) -> Seq<char> {
    t.subrange(i + "pkgrel="@.len(), value_end(t, i + "pkgrel="@.len(), false))
}

/// Why extraction failed: the text lacks the named field.
#[derive(Clone, Copy, Debug, PartialEq, Eq, Structural)]
pub enum ParseError {
    MissingPkgver,
    MissingPkgrel,
}

impl ParseError {
    /// The description attached to this failure.
    pub open spec fn spec_message(self) -> Seq<char> {
        match self {
            ParseError::MissingPkgver => "Failed to find pkgver in PKGBUILD"@,
            ParseError::MissingPkgrel => "Failed to find pkgrel in PKGBUILD"@,
        }
    }

    /// Renders the description of this failure.
    pub fn message(&self) -> (r: String)
        ensures
            r@ == self.spec_message(),
    {
        match self {
            ParseError::MissingPkgver => String::from_str("Failed to find pkgver in PKGBUILD"),
            ParseError::MissingPkgrel => String::from_str("Failed to find pkgrel in PKGBUILD"),
        }
    }
}

/// What extraction returns on `t`: both field values, or the first field
/// whose assignment is missing, `pkgver` checked before `pkgrel`.
pub open spec fn spec_extract(t: Seq<char>) -> Result<(Seq<char>, Seq<char>), ParseError> {
    if spec_pkgver(t) is None {
        Err(ParseError::MissingPkgver)
    } else if spec_pkgrel(t) is None {
        Err(ParseError::MissingPkgrel)
    } else {
        Ok((spec_pkgver(t)->0, spec_pkgrel(t)->0))
    }
}

/// The canonical rendering of a version: the two values joined by a dash.
pub open spec fn canonical_form(ver: Seq<char>, rel: Seq<char>) -> Seq<char> {
    ver + seq!['-'] + rel
}

/// The version information extracted from a recipe.
#[derive(Debug)]
pub struct PkgVersion {
    pub pkgver: String,
    pub pkgrel: String,
}

impl PkgVersion {
    /// Both fields carry well-formed values.
    pub open spec fn wf(self) -> bool {
        is_version_text(self.pkgver@) && is_release_text(self.pkgrel@)
    }

    /// The canonical string form of this version.
    pub open spec fn spec_canonical(self) -> Seq<char> {
        canonical_form(self.pkgver@, self.pkgrel@)
    }

    /// Renders the canonical `{pkgver}-{pkgrel}` form.
    pub fn canonical(&self) -> (r: String)
        ensures
            r@ == self.spec_canonical(),
    {
        let mut s = self.pkgver.clone();
        s.append("-");
        s.append(self.pkgrel.as_str());
        proof {
            reveal_strlit("-");
            assert(s@ =~= self.spec_canonical());
        }
        s
    }
}

impl Clone for PkgVersion {
    /// The clone carries the same two values.
    fn clone(&self) -> (r: Self)
        ensures
            r.pkgver@ == self.pkgver@,
            r.pkgrel@ == self.pkgrel@,
    {
        PkgVersion { pkgver: self.pkgver.clone(), pkgrel: self.pkgrel.clone() }
    }
}

impl PartialEq for PkgVersion {
    /// Structural equality: both fields agree.
    fn eq(&self, other: &PkgVersion) -> (r: bool) {
        self.pkgver == other.pkgver && self.pkgrel == other.pkgrel
    }
}

impl vstd::std_specs::cmp::PartialEqSpecImpl for PkgVersion {
    open spec fn obeys_eq_spec() -> bool {
        true
    }

    open spec fn eq_spec(&self, other: &PkgVersion) -> bool {
        self.pkgver@ == other.pkgver@ && self.pkgrel@ == other.pkgrel@
    }
}

impl Eq for PkgVersion {

}

/// Whether a `key` assignment stands exactly at position `i` of `content`.
fn key_match_here(content: &str, key: &str, i: usize) -> (b: bool)
    requires
        i < content@.len(),
    ensures
        b == key_match_at(content@, key@, i as int),
{
    let ghost t = content@;
    let ghost k = key@;
    if i != 0 {
        let prev = content.get_char(i - 1);
        if prev != '\n' {
            return false;
        }
    }
    let n = content.unicode_len();
    let klen = key.unicode_len();
    if n - i <= klen {
        return false;
    }
    let mut j: usize = 0;
    while j < klen
        invariant
            t == content@,
            k == key@,
            0 <= j <= klen,
            i + klen < n,
            n == t.len(),
            klen == k.len(),
            i < t.len(),
            forall|m: int| 0 <= m < j ==> t[i + m] == k[m],
        decreases klen - j,
    {
        if content.get_char(i + j) != key.get_char(j) {
            proof {
                assert(t.subrange(i as int, i + k.len())[j as int] == t[i + j]);
            }
            return false;
        }
        j += 1;
    }
    proof {
        assert(t.subrange(i as int, i + k.len()) =~= k);
    }
    let c = content.get_char(i + klen);
    is_digit_char(c)
}

/// Finds the first `key` assignment of `content` and returns its value.
fn find_field(content: &str, key: &str, dots: bool) -> (r: Option<String>)
    ensures
        match field_value(content@, key@, dots) {
            Some(v) => r matches Some(s) && s@ == v,
            None => r is None,
        },
{
    let ghost t = content@;
    let ghost k = key@;
    let n = content.unicode_len();
    let mut i: usize = 0;
    while i < n
        invariant
            t == content@,
            k == key@,
            0 <= i <= n,
            n == t.len(),
            first_key_match_from(t, k, 0) == first_key_match_from(t, k, i as int),
        decreases n - i,
    {
        if key_match_here(content, key, i) {
            let klen = key.unicode_len();
            let start = i + klen;
            proof {
                assert(first_key_match_from(t, k, i as int) == Some(i as int));
            }
            let mut j: usize = start;
            loop
                invariant
                    t == content@,
                    start <= j <= n,
                    n == t.len(),
                    start == i + k.len() < n,
                    value_end(t, start as int, dots) == value_end(t, j as int, dots),
                ensures
                    start <= j <= n,
                    value_end(t, start as int, dots) == j as int,
                decreases n - j,
            {
                if j >= n {
                    break;
                }
                let c = content.get_char(j);
                let dig = is_digit_char(c);
                let val = if dots {
                    dig || c == '.'
                } else {
                    dig
                };
                if !val {
                    break;
                }
                j += 1;
            }
            let val = content.substring_char(start, j);
            return Some(String::from_str(val));
        }
        proof {
            assert(first_key_match_from(t, k, i as int) == first_key_match_from(t, k, i + 1));
        }
        i += 1;
    }
    proof {
        assert(first_key_match_from(t, k, n as int) is None);
    }
    None
}

/// The run of value characters starting at `j` reaches exactly to
/// `value_end`, and every character in it is a value character.
proof fn lemma_value_end_props(t: Seq<char>, j: int, dots: bool)
    requires
        0 <= j <= t.len(),
    ensures
        j <= value_end(t, j, dots) <= t.len(),
        forall|m: int| j <= m < value_end(t, j, dots) ==> value_char(#[trigger] t[m], dots),
    decreases t.len() - j,
{
    if j < t.len() && value_char(t[j], dots) {
        lemma_value_end_props(t, j + 1, dots);
    }
}

/// A value taken from a `key` assignment is well formed: it opens with a
/// digit and holds value characters only.
proof fn lemma_field_value_wf(t: Seq<char>, key: Seq<char>, dots: bool)
    ensures
        field_value(t, key, dots) matches Some(v) ==> {
            &&& v.len() > 0
            &&& digit_char(v[0])
            &&& forall|m: int| 0 <= m < v.len() ==> value_char(#[trigger] v[m], dots)
        },
{
    if field_value(t, key, dots) is Some {
        lemma_first_key_match_from_props(t, key, 0);
        let i = first_key_match_from(t, key, 0)->0;
        assert(key_match_at(t, key, i));
        let start = i + key.len();
        assert(digit_char(t[start]));
        assert(value_char(t[start], dots));
        lemma_value_end_props(t, start, dots);
        let end = value_end(t, start, dots);
        assert(start <= end <= t.len());
        assert(end > start) by {
            assert(value_end(t, start, dots) == value_end(t, start + 1, dots));
            lemma_value_end_props(t, start + 1, dots);
        }
        let v = t.subrange(start, end);
        assert(field_value(t, key, dots)->0 == v);
        assert(v.len() > 0);
        assert(v[0] == t[start]);
        assert(digit_char(v[0]));
        assert forall|m: int| 0 <= m < v.len() implies value_char(#[trigger] v[m], dots) by {
            assert(v[m] == t[start + m]);
        }
    }
}

/// What the first-match scan returns: the least position carrying an
/// assignment, or the guarantee that none stands at or after `i`.
proof fn lemma_first_key_match_from_props(t: Seq<char>, key: Seq<char>, i: int)
    requires
        0 <= i <= t.len(),
    ensures
        match first_key_match_from(t, key, i) {
            Some(p) => {
                &&& i <= p
                &&& key_match_at(t, key, p)
                &&& forall|q: int| i <= q < p ==> !key_match_at(t, key, q)
            },
            None => forall|q: int| q >= i ==> !key_match_at(t, key, q),
        },
    decreases t.len() - i,
{
    if i >= t.len() {
        assert forall|q: int| q >= i implies !key_match_at(t, key, q) by {
            assert(q + key.len() >= t.len());
        }
    } else if key_match_at(t, key, i) {
    } else {
        lemma_first_key_match_from_props(t, key, i + 1);
    }
}

/// Extracts the two version fields from recipe text.
///
/// Returns the values of the first `pkgver` and first `pkgrel` assignments,
/// or the first missing field, `pkgver` checked before `pkgrel`.
pub fn parse_pkgbuild(content: &str) -> (r: Result<PkgVersion, ParseError>)
    ensures
        match r {
            Ok(v) => {
                &&& spec_extract(content@) matches Ok(p)
                &&& v.pkgver@ == p.0
                &&& v.pkgrel@ == p.1
                &&& v.wf()
            },
            Err(e) => spec_extract(content@) matches Err(f) && f == e,
        },
{
    let pkgver = match find_field(content, "pkgver=", true) {
        Some(v) => v,
        None => {
            return Err(ParseError::MissingPkgver);
        },
    };
    let pkgrel = match find_field(content, "pkgrel=", false) {
        Some(v) => v,
        None => {
            return Err(ParseError::MissingPkgrel);
        },
    };
    proof {
        lemma_field_value_wf(content@, "pkgver="@, true);
        lemma_field_value_wf(content@, "pkgrel="@, false);
    }
    Ok(PkgVersion { pkgver, pkgrel })
}

/// If every `pkgver` assignment of `t` carries the value standing at `i`
/// and every `pkgrel` assignment the value standing at `j`, extraction
/// succeeds with exactly those values — whatever the order of the two
/// lines and whatever else the text holds.
pub proof fn lemma_extract_of_present_fields(t: Seq<char>, i: int, j: int)
    requires
        ver_match_at(t, i),
        rel_match_at(t, j),
        forall|k: int| ver_match_at(t, k) ==> ver_value_at(t, k) == ver_value_at(t, i),
        forall|k: int| rel_match_at(t, k) ==> rel_value_at(t, k) == rel_value_at(t, j),
    ensures
        spec_extract(t) matches Ok(p) && p.0 == ver_value_at(t, i) && p.1 == rel_value_at(t, j),
{
    lemma_first_key_match_from_props(t, "pkgver="@, 0);
    lemma_first_key_match_from_props(t, "pkgrel="@, 0);
    assert(key_match_at(t, "pkgver="@, i));
    assert(key_match_at(t, "pkgrel="@, j));
    match first_key_match_from(t, "pkgver="@, 0) {
        Some(p) => {
            assert(ver_match_at(t, p));
            assert(ver_value_at(t, p) == ver_value_at(t, i));
            assert(spec_pkgver(t) == Some(ver_value_at(t, i)));
        },
        None => {
            assert(!key_match_at(t, "pkgver="@, i));
        },
    }
    match first_key_match_from(t, "pkgrel="@, 0) {
        Some(p) => {
            assert(rel_match_at(t, p));
            assert(rel_value_at(t, p) == rel_value_at(t, j));
            assert(spec_pkgrel(t) == Some(rel_value_at(t, j)));
        },
        None => {
            assert(!key_match_at(t, "pkgrel="@, j));
        },
    }
}

/// Text with no `pkgver` assignment fails identifying `pkgver`, whether or
/// not a `pkgrel` assignment is present.
pub proof fn lemma_missing_pkgver(t: Seq<char>)
    requires
        forall|k: int| !ver_match_at(t, k),
    ensures
        spec_extract(t) matches Err(e) && e == ParseError::MissingPkgver,
{
    lemma_first_key_match_from_props(t, "pkgver="@, 0);
    match first_key_match_from(t, "pkgver="@, 0) {
        Some(p) => {
            assert(ver_match_at(t, p));
        },
        None => {
        },
    }
}

/// Text with a `pkgver` assignment but no `pkgrel` assignment fails
/// identifying `pkgrel`.
pub proof fn lemma_missing_pkgrel(t: Seq<char>, i: int)
    requires
        ver_match_at(t, i),
        forall|k: int| !rel_match_at(t, k),
    ensures
        spec_extract(t) matches Err(e) && e == ParseError::MissingPkgrel,
{
    lemma_first_key_match_from_props(t, "pkgver="@, 0);
    lemma_first_key_match_from_props(t, "pkgrel="@, 0);
    assert(key_match_at(t, "pkgver="@, i));
    match first_key_match_from(t, "pkgver="@, 0) {
        Some(p) => {
        },
        None => {
            assert(!key_match_at(t, "pkgver="@, i));
        },
    }
    match first_key_match_from(t, "pkgrel="@, 0) {
        Some(p) => {
            assert(rel_match_at(t, p));
        },
        None => {
        },
    }
}

/// Two version records are equal exactly when both fields agree as
/// character strings: there is no numeric coercion, so values written
/// differently compare as different.
pub proof fn lemma_version_eq_structural(a: PkgVersion, b: PkgVersion)
    ensures
        a.eq_spec(&b) <==> (a.pkgver@ == b.pkgver@ && a.pkgrel@ == b.pkgrel@),
{
}

/// Extraction depends on the text alone: equal texts extract to equal
/// results. Together with the extractor's contract, which ties its result
/// to `spec_extract`, running the extractor twice on the same text yields
/// records with equal fields.
pub proof fn lemma_extract_idempotent(t1: Seq<char>, t2: Seq<char>)
    requires
        t1 == t2,
    ensures
        spec_extract(t1) == spec_extract(t2),
{
}

} // verus!
