//! Concrete versions of an installed toolchain, ordered by semantic-version precedence.

use vstd::prelude::*;
use vstd::utf8::encode_utf8;

verus! {

/// One dot-separated part of a pre-release tag.
#[derive(Debug, Clone, PartialEq, Eq)]
pub enum Identifier {
    /// A part made of digits only.
    Numeric(u64),
    /// A part holding letters.
    AlphaNumeric(String),
}

/// A concrete version: `major.minor.patch`, with an optional pre-release tag.
/// Build metadata plays no part in precedence and is not kept.
#[derive(Debug, Clone, PartialEq, Eq)]
pub struct Version {
    pub major: u64,
    pub minor: u64,
    pub patch: u64,
    pub pre: Vec<Identifier>,
}

/// What an identifier is compared by: its number, or the bytes of its text.
pub enum IdentifierView {
    Numeric(u64),
    AlphaNumeric(Seq<u8>),
}

impl View for Identifier {
    type V = IdentifierView;

    open spec fn view(&self) -> IdentifierView {
        match self {
            Identifier::Numeric(n) => IdentifierView::Numeric(*n),
            Identifier::AlphaNumeric(s) => IdentifierView::AlphaNumeric(encode_utf8(s@)),
        }
    }
}

pub struct VersionView {
    pub major: u64,
    pub minor: u64,
    pub patch: u64,
    pub pre: Seq<IdentifierView>,
}

impl View for Version {
    type V = VersionView;

    open spec fn view(&self) -> VersionView {
        VersionView {
            major: self.major,
            minor: self.minor,
            patch: self.patch,
            pre: self.pre@.map_values(|i: Identifier| i@),
        }
    }
}

/// -1, 0 or 1 as `a` is below, equal to or above `b`.
pub open spec fn cmp_int(a: int, b: int) -> int {
    if a < b {
        -1
    } else if a > b {
        1
    } else {
        0
    }
}

/// Lexicographic order of byte strings, a proper prefix first.
pub open spec fn cmp_bytes(a: Seq<u8>, b: Seq<u8>) -> int
    decreases a.len(),
{
    if a.len() == 0 && b.len() == 0 {
        0
    } else if a.len() == 0 {
        -1
    } else if b.len() == 0 {
        1
    } else if a[0] != b[0] {
        cmp_int(a[0] as int, b[0] as int)
    } else {
        cmp_bytes(a.drop_first(), b.drop_first())
    }
}

/// Numeric identifiers by value, before text identifiers, which go by their bytes.
pub open spec fn cmp_identifier(a: IdentifierView, b: IdentifierView) -> int {
    match (a, b) {
        (IdentifierView::Numeric(x), IdentifierView::Numeric(y)) => cmp_int(x as int, y as int),
        (IdentifierView::Numeric(_), IdentifierView::AlphaNumeric(_)) => -1,
        (IdentifierView::AlphaNumeric(_), IdentifierView::Numeric(_)) => 1,
        (IdentifierView::AlphaNumeric(x), IdentifierView::AlphaNumeric(y)) => cmp_bytes(x, y),
    }
}

/// Lexicographic order of identifier lists, a proper prefix first.
pub open spec fn cmp_identifiers(a: Seq<IdentifierView>, b: Seq<IdentifierView>) -> int
    decreases a.len(),
{
    if a.len() == 0 && b.len() == 0 {
        0
    } else if a.len() == 0 {
        -1
    } else if b.len() == 0 {
        1
    } else if cmp_identifier(a[0], b[0]) != 0 {
        cmp_identifier(a[0], b[0])
    } else {
        cmp_identifiers(a.drop_first(), b.drop_first())
    }
}

/// Precedence of versions: major, minor and patch in turn; on a tie a release
/// comes after any pre-release, and two pre-releases go by their identifiers.
pub open spec fn cmp_version(a: VersionView, b: VersionView) -> int {
    if a.major != b.major {
        cmp_int(a.major as int, b.major as int)
    } else if a.minor != b.minor {
        cmp_int(a.minor as int, b.minor as int)
    } else if a.patch != b.patch {
        cmp_int(a.patch as int, b.patch as int)
    } else if a.pre.len() == 0 && b.pre.len() == 0 {
        0
    } else if a.pre.len() == 0 {
        1
    } else if b.pre.len() == 0 {
        -1
    } else {
        cmp_identifiers(a.pre, b.pre)
    }
}

proof fn lemma_cmp_bytes_zero(a: Seq<u8>, b: Seq<u8>)
    requires
        cmp_bytes(a, b) == 0,
    ensures
        a == b,
    decreases a.len(),
{
    if a.len() > 0 && b.len() > 0 {
        lemma_cmp_bytes_zero(a.drop_first(), b.drop_first());
        assert(a =~= seq![a[0]] + a.drop_first());
        assert(b =~= seq![b[0]] + b.drop_first());
    } else {
        assert(a =~= b);
    }
}

proof fn lemma_cmp_bytes_trans(a: Seq<u8>, b: Seq<u8>, c: Seq<u8>)
    requires
        cmp_bytes(a, b) < 0,
        cmp_bytes(b, c) < 0,
    ensures
        cmp_bytes(a, c) < 0,
    decreases a.len(),
{
    if a.len() > 0 && b.len() > 0 && c.len() > 0 && a[0] == b[0] && b[0] == c[0] {
        lemma_cmp_bytes_trans(a.drop_first(), b.drop_first(), c.drop_first());
    }
}

proof fn lemma_cmp_identifier_zero(a: IdentifierView, b: IdentifierView)
    requires
        cmp_identifier(a, b) == 0,
    ensures
        a == b,
{
    match (a, b) {
        (IdentifierView::AlphaNumeric(x), IdentifierView::AlphaNumeric(y)) => {
            lemma_cmp_bytes_zero(x, y);
        },
        _ => {},
    }
}

proof fn lemma_cmp_identifier_trans(a: IdentifierView, b: IdentifierView, c: IdentifierView)
    requires
        cmp_identifier(a, b) < 0,
        cmp_identifier(b, c) < 0,
    ensures
        cmp_identifier(a, c) < 0,
{
    match (a, b, c) {
        (
            IdentifierView::AlphaNumeric(x),
            IdentifierView::AlphaNumeric(y),
            IdentifierView::AlphaNumeric(z),
        ) => {
            lemma_cmp_bytes_trans(x, y, z);
        },
        _ => {},
    }
}

proof fn lemma_cmp_identifiers_trans(a: Seq<IdentifierView>, b: Seq<IdentifierView>, c: Seq<IdentifierView>)
    requires
        cmp_identifiers(a, b) < 0,
        cmp_identifiers(b, c) < 0,
    ensures
        cmp_identifiers(a, c) < 0,
    decreases a.len(),
{
    if a.len() > 0 && b.len() > 0 && c.len() > 0 {
        let ab = cmp_identifier(a[0], b[0]);
        let bc = cmp_identifier(b[0], c[0]);
        if ab == 0 {
            lemma_cmp_identifier_zero(a[0], b[0]);
        }
        if bc == 0 {
            lemma_cmp_identifier_zero(b[0], c[0]);
        }
        if ab == 0 && bc == 0 {
            lemma_cmp_identifiers_trans(a.drop_first(), b.drop_first(), c.drop_first());
        } else if ab < 0 && bc < 0 {
            lemma_cmp_identifier_trans(a[0], b[0], c[0]);
        }
    }
}

proof fn lemma_cmp_bytes_refl(a: Seq<u8>)
    ensures
        cmp_bytes(a, a) == 0,
    decreases a.len(),
{
    if a.len() > 0 {
        lemma_cmp_bytes_refl(a.drop_first());
    }
}

proof fn lemma_cmp_identifiers_refl(a: Seq<IdentifierView>)
    ensures
        cmp_identifiers(a, a) == 0,
    decreases a.len(),
{
    if a.len() > 0 {
        if let IdentifierView::AlphaNumeric(x) = a[0] {
            lemma_cmp_bytes_refl(x);
        }
        lemma_cmp_identifiers_refl(a.drop_first());
    }
}

/// Every version ties with itself.
pub proof fn lemma_cmp_version_refl(a: VersionView)
    ensures
        cmp_version(a, a) == 0,
{
    lemma_cmp_identifiers_refl(a.pre);
}

/// Strict precedence is transitive.
pub proof fn lemma_cmp_version_trans(a: VersionView, b: VersionView, c: VersionView)
    requires
        cmp_version(a, b) < 0,
        cmp_version(b, c) < 0,
    ensures
        cmp_version(a, c) < 0,
{
    if a.major == b.major && b.major == c.major && a.minor == b.minor && b.minor == c.minor
        && a.patch == b.patch && b.patch == c.patch && a.pre.len() > 0 && b.pre.len() > 0
        && c.pre.len() > 0 {
        lemma_cmp_identifiers_trans(a.pre, b.pre, c.pre);
    }
}

/// Relies on semver's `Ord` for `Version`: major, minor and patch, then a
/// release after its pre-releases, then the pre-release identifiers in turn by
/// their derived `Ord` (numbers by value before text by bytes, a prefix first).
/// Build metadata is left empty and plays no part.
#[verifier::external_body]
fn semver_compare(a: &Version, b: &Version) -> (r: i8)
    ensures
        r as int == cmp_version(a@, b@),
{
    let to = |v: &Version| semver::Version {
        major: v.major, minor: v.minor, patch: v.patch, build: vec![],
        pre: v.pre.iter().map(|i| match i {
            Identifier::Numeric(n) => semver::Identifier::Numeric(*n),
            Identifier::AlphaNumeric(s) => semver::Identifier::AlphaNumeric(s.clone()),
        }).collect(),
    };
    match to(a).cmp(&to(b)) {
        std::cmp::Ordering::Less => -1,
        std::cmp::Ordering::Equal => 0,
        std::cmp::Ordering::Greater => 1,
    }
}

impl Version {
    /// -1, 0 or 1 as `self` precedes, ties with or follows `other`.
    pub fn compare(&self, other: &Version) -> (r: i8)
        ensures
            r as int == cmp_version(self@, other@),
    {
        semver_compare(self, other)
    }
}

} // verus!
