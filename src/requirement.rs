//! What a directory asks for: a semantic-version requirement or the path of
//! an installation, and the pinning file that records it.

use vstd::prelude::*;
use vstd::string::StringSliceAdditionalSpecFns;
use vstd::utf8::{decode_utf8, encode_utf8};
use crate::version::{Identifier, IdentifierView, Version, VersionView};

verus! {

/// Why a requirement could not be had.
#[derive(Debug, Clone, Copy, PartialEq, Eq, Structural)]
pub enum Error {
    /// The text is no version requirement and names no existing path.
    NotFound,
    /// The pinning file holds no line.
    Empty,
}

/// A version requirement, kept in the syntax of the semver crate, or the
/// canonical absolute path of an installation.
#[derive(Debug, Clone, PartialEq, Eq)]
pub enum VersionOrPath {
    /// A requirement, as semver writes it back.
    VersionReq(String),
    /// The canonical absolute path of an installation.
    Path(String),
}

pub enum RequirementView {
    Range(Seq<char>),
    Path(Seq<char>),
}

impl View for VersionOrPath {
    type V = RequirementView;

    open spec fn view(&self) -> RequirementView {
        match self {
            VersionOrPath::VersionReq(s) => RequirementView::Range(s@),
            VersionOrPath::Path(p) => RequirementView::Path(p@),
        }
    }
}

/// The requirement that semver reads in `s`, written back in semver's own
/// syntax; nothing when `s` is no requirement.
pub uninterp spec fn requirement_text(s: Seq<char>) -> Option<Seq<char>>;

/// The decimal digit `d`.
pub open spec fn digit_char(d: int) -> char {
    seq!['0', '1', '2', '3', '4', '5', '6', '7', '8', '9'][d]
}

/// `n` in decimal, without leading zeros.
pub open spec fn decimal(n: nat) -> Seq<char>
    decreases n,
{
    if n < 10 {
        seq![digit_char(n as int)]
    } else {
        decimal(n / 10) + seq![digit_char((n % 10) as int)]
    }
}

/// An identifier as semver writes it: a number in decimal, text as it is.
pub open spec fn identifier_text(i: IdentifierView) -> Seq<char> {
    match i {
        IdentifierView::Numeric(n) => decimal(n as nat),
        IdentifierView::AlphaNumeric(b) => decode_utf8(b),
    }
}

/// Identifiers as semver writes them, separated by dots.
pub open spec fn identifiers_text(ids: Seq<IdentifierView>) -> Seq<char>
    decreases ids.len(),
{
    if ids.len() == 0 {
        Seq::empty()
    } else if ids.len() == 1 {
        identifier_text(ids[0])
    } else {
        identifier_text(ids[0]) + seq!['.'] + identifiers_text(ids.drop_first())
    }
}

/// The text of semver's exact requirement on version `v`: `"= "`, then
/// major, minor and patch separated by dots, then `"-"` and the pre-release
/// identifiers when there are any.
pub open spec fn exact_requirement_text(v: VersionView) -> Seq<char> {
    seq!['=', ' '] + decimal(v.major as nat) + seq!['.'] + decimal(v.minor as nat) + seq!['.']
        + decimal(v.patch as nat) + if v.pre.len() == 0 {
        Seq::empty()
    } else {
        seq!['-'] + identifiers_text(v.pre)
    }
}

/// Relies on semver::VersionReq::parse, and on its Display to write the
/// requirement back: the result is a function of `s` alone.
#[verifier::external_body]
fn parse_requirement(s: &str) -> (r: Option<String>)
    ensures
        match r {
            Some(t) => requirement_text(s@) == Some(t@),
            None => requirement_text(s@) is None,
        },
{
    semver::VersionReq::parse(s).ok().map(|req| req.to_string())
}

/// Relies on semver::VersionReq::exact and its Display: the requirement that
/// only `v` meets, as text. The build metadata is left empty, as the library's
/// versions carry none.
#[verifier::external_body]
pub(crate) fn exact_requirement(v: &Version) -> (r: String)
    ensures
        r@ == exact_requirement_text(v@),
{
    let pre = v.pre.iter().map(|i| match i {
        Identifier::Numeric(n) => semver::Identifier::Numeric(*n),
        Identifier::AlphaNumeric(s) => semver::Identifier::AlphaNumeric(s.clone()),
    }).collect();
    let v = semver::Version { major: v.major, minor: v.minor, patch: v.patch, pre, build: vec![] };
    semver::VersionReq::exact(&v).to_string()
}

/// Whether semver's requirement written `req` admits version `v`.
pub uninterp spec fn requirement_admits(req: Seq<char>, v: VersionView) -> bool;

/// Relies on semver::VersionReq::parse and semver::VersionReq::matches:
/// whether the requirement written `req` admits `v`; false when `req` is no
/// requirement.
#[verifier::external_body]
fn requirement_matches(req: &str, v: &Version) -> (r: bool)
    ensures
        r == requirement_admits(req@, v@),
{
    let pre = v.pre.iter().map(|i| match i {
        Identifier::Numeric(n) => semver::Identifier::Numeric(*n),
        Identifier::AlphaNumeric(s) => semver::Identifier::AlphaNumeric(s.clone()),
    }).collect();
    let v = semver::Version { major: v.major, minor: v.minor, patch: v.patch, pre, build: vec![] };
    match semver::VersionReq::parse(req) {
        Ok(r) => r.matches(&v),
        Err(_) => false,
    }
}

/// `"latest"` stands for the wildcard `"*"`; other text stands for itself.
pub open spec fn normalized(s: Seq<char>) -> Seq<char> {
    if s == "latest"@ {
        "*"@
    } else {
        s
    }
}

/// An absolute path: one that starts at the root directory.
pub open spec fn is_absolute(p: Seq<char>) -> bool {
    p.len() > 0 && p[0] == '/'
}

/// What parsing `s` gives, where `canonical` is the canonical absolute form
/// of `s` taken as a path when such a path exists.
pub open spec fn parsed(s: Seq<char>, canonical: Option<Seq<char>>) -> Result<RequirementView, Error> {
    match requirement_text(normalized(s)) {
        Some(t) => Ok(RequirementView::Range(t)),
        None => match canonical {
            Some(p) => Ok(RequirementView::Path(p)),
            None => Err(Error::NotFound),
        },
    }
}

pub open spec fn option_view(o: Option<String>) -> Option<Seq<char>> {
    match o {
        Some(s) => Some(s@),
        None => None,
    }
}

pub open spec fn result_view(r: Result<VersionOrPath, Error>) -> Result<RequirementView, Error> {
    match r {
        Ok(v) => Ok(v@),
        Err(e) => Err(e),
    }
}

/// Whether `s` is the text `"latest"`.
fn is_latest(s: &str) -> (r: bool)
    ensures
        r == (s@ == "latest"@),
{
    let word = "latest";
    let a = s.as_bytes();
    let b = word.as_bytes();
    let mut same = a.len() == b.len();
    let mut i: usize = 0;
    while same && i < a.len()
        invariant
            same ==> a@.len() == b@.len(),
            i <= a@.len(),
            same ==> forall|k: int| 0 <= k < i ==> a@[k] == b@[k],
            !same ==> a@ != b@,
        decreases a@.len() - i,
    {
        if a[i] != b[i] {
            same = false;
        }
        i = i + 1;
    }
    proof {
        vstd::utf8::encode_utf8_decode_utf8(s@);
        vstd::utf8::encode_utf8_decode_utf8(word@);
        if same {
            assert(a@ =~= b@);
        }
    }
    same
}

impl VersionOrPath {
    /// Reads `s` as a version requirement (`"latest"` meaning `"*"`), else as
    /// a path; `canonical` is the canonical absolute form of that path when
    /// it exists on the filesystem, and nothing otherwise. A path requirement
    /// is therefore always absolute.
    pub fn parse(s: &str, canonical: Option<String>) -> (r: Result<VersionOrPath, Error>)
        requires
            canonical matches Some(c) ==> is_absolute(c@),
        ensures
            result_view(r) == parsed(s@, option_view(canonical)),
    {
        let input = if is_latest(s) {
            "*"
        } else {
            s
        };
        proof {
            reveal_strlit("*");
        }
        match parse_requirement(input) {
            Some(t) => Ok(VersionOrPath::VersionReq(t)),
            None => match canonical {
                Some(p) => Ok(VersionOrPath::Path(p)),
                None => Err(Error::NotFound),
            },
        }
    }

    /// Whether `candidate` meets this requirement; a path requirement is met
    /// by no version.
    pub fn matches(&self, candidate: &Version) -> (r: bool)
        ensures
            r == match self@ {
                RequirementView::Range(t) => requirement_admits(t, candidate@),
                RequirementView::Path(_) => false,
            },
    {
        match self {
            VersionOrPath::VersionReq(t) => requirement_matches(t.as_str(), candidate),
            VersionOrPath::Path(_) => false,
        }
    }

    /// The text that stands for this requirement in a pinning file.
    pub fn text(&self) -> (r: String)
        ensures
            r@ == match self@ {
                RequirementView::Range(t) => t,
                RequirementView::Path(p) => p,
            },
    {
        match self {
            VersionOrPath::VersionReq(t) => t.clone(),
            VersionOrPath::Path(p) => p.clone(),
        }
    }
}

/// `"latest"` and `"*"` ask for the same thing.
pub proof fn lemma_latest_is_wildcard(canonical: Option<Seq<char>>)
    ensures
        parsed("latest"@, canonical) == parsed("*"@, canonical),
{
    reveal_strlit("latest");
    reveal_strlit("*");
    assert("*"@ != "latest"@) by {
        assert("*"@.len() != "latest"@.len());
    }
}

/// Given, for the start directory and then each of its ancestors up to the
/// root, whether it holds a pinning file, the position of the nearest one
/// that does; nothing when none does.
pub fn find_nearest_pinning_file(has_pinning_file: &[bool]) -> (r: Option<usize>)
    ensures
        r matches Some(k) ==> k < has_pinning_file@.len() && has_pinning_file@[k as int] && forall|j: int|
            0 <= j < k ==> !has_pinning_file@[j],
        r is None ==> forall|j: int| 0 <= j < has_pinning_file@.len() ==> !has_pinning_file@[j],
{
    let mut i: usize = 0;
    while i < has_pinning_file.len()
        invariant
            i <= has_pinning_file@.len(),
            forall|j: int| 0 <= j < i ==> !has_pinning_file@[j],
        decreases has_pinning_file@.len() - i,
    {
        if has_pinning_file[i] {
            return Some(i);
        }
        i = i + 1;
    }
    None
}

/// The bytes before the first newline.
pub open spec fn first_line(s: Seq<u8>) -> Seq<u8>
    decreases s.len(),
{
    if s.len() == 0 || s[0] == 10u8 {
        Seq::empty()
    } else {
        seq![s[0]] + first_line(s.drop_first())
    }
}

/// What loading a pinning file with content `content` gives.
pub open spec fn loaded(content: Seq<u8>, canonical: Option<Seq<char>>) -> Result<RequirementView, Error> {
    if content.len() == 0 {
        Err(Error::Empty)
    } else {
        parsed(decode_utf8(first_line(content)), canonical)
    }
}

/// The content of a pinning file that records `text`: the text and a newline.
pub open spec fn pinning_content(text: Seq<char>) -> Seq<char> {
    text + "\n"@
}

/// `text` followed by a newline.
pub fn pinning_file_content(text: &str) -> (r: String)
    ensures
        r@ == pinning_content(text@),
{
    let r = text.to_owned().concat("\n");
    r
}

/// The first line of a pinning file's `content`: what comes before the first newline.
pub fn pinning_line(content: &str) -> (r: &str)
    ensures
        r@ == decode_utf8(first_line(content.spec_bytes())),
{
    let bytes = content.as_bytes();
    let mut k: usize = 0;
    assert(bytes@.subrange(0, bytes@.len() as int) =~= bytes@);
    assert(bytes@.subrange(0, 0) + first_line(bytes@) =~= first_line(bytes@));
    while k < bytes.len() && bytes[k] != 10u8
        invariant
            k <= bytes@.len(),
            bytes@ == content.spec_bytes(),
            first_line(bytes@) == bytes@.subrange(0, k as int) + first_line(
                bytes@.subrange(k as int, bytes@.len() as int),
            ),
        decreases bytes@.len() - k,
    {
        let ghost rest = bytes@.subrange(k as int, bytes@.len() as int);
        assert(rest.drop_first() =~= bytes@.subrange(k + 1, bytes@.len() as int));
        assert(bytes@.subrange(0, k + 1) =~= bytes@.subrange(0, k as int) + seq![rest[0]]);
        proof {
            i_assoc(bytes@.subrange(0, k as int), seq![rest[0]], first_line(rest.drop_first()));
        }
        k = k + 1;
    }
    proof {
        let rest = bytes@.subrange(k as int, bytes@.len() as int);
        assert(first_line(rest) == Seq::<u8>::empty());
        assert(bytes@.subrange(0, k as int) + Seq::<u8>::empty() =~= bytes@.subrange(0, k as int));
        vstd::utf8::encode_utf8_valid_utf8(content@);
        if k < bytes@.len() {
            vstd::utf8::is_char_boundary_iff_not_is_continuation_byte(bytes@, k as int);
        } else {
            vstd::utf8::is_char_boundary_start_end_of_seq(bytes@);
        }
    }
    let (line, _) = content.split_at(k);
    proof {
        vstd::utf8::encode_utf8_decode_utf8(line@);
    }
    line
}

/// A requirement chosen for a directory tree.
#[derive(Debug, Clone)]
pub struct SelectedVersion {
    pub version: VersionOrPath,
}

impl SelectedVersion {
    /// Reads the requirement on the first line of a pinning file's `content`;
    /// other lines are free for comments. `canonical` is the canonical
    /// absolute form of that line taken as a path, when such a path exists.
    pub fn from_file(content: &str, canonical: Option<String>) -> (r: Result<SelectedVersion, Error>)
        requires
            canonical matches Some(c) ==> is_absolute(c@),
        ensures
            match r {
                Ok(s) => loaded(content.spec_bytes(), option_view(canonical)) == Ok::<
                    RequirementView,
                    Error,
                >(s.version@),
                Err(e) => loaded(content.spec_bytes(), option_view(canonical)) == Err::<
                    RequirementView,
                    Error,
                >(e),
            },
    {
        let bytes = content.as_bytes();
        if bytes.len() == 0 {
            return Err(Error::Empty);
        }
        let line = pinning_line(content);
        match VersionOrPath::parse(line, canonical) {
            Ok(v) => Ok(SelectedVersion { version: v }),
            Err(e) => Err(e),
        }
    }

    /// The content of a pinning file that records this requirement.
    pub fn save_to(&self) -> (r: String)
        ensures
            r@ == pinning_content(
                match self.version@ {
                    RequirementView::Range(t) => t,
                    RequirementView::Path(p) => p,
                },
            ),
    {
        let t = self.version.text();
        pinning_file_content(t.as_str())
    }
}

proof fn lemma_encode_concat(a: Seq<char>, b: Seq<char>)
    ensures
        encode_utf8(a + b) == encode_utf8(a) + encode_utf8(b),
    decreases a.len(),
{
    if a.len() == 0 {
        assert(a + b =~= b);
        assert(encode_utf8(a) + encode_utf8(b) =~= encode_utf8(b));
    } else {
        assert((a + b).drop_first() =~= a.drop_first() + b);
        lemma_encode_concat(a.drop_first(), b);
        assert((a + b)[0] == a[0]);
        i_assoc(vstd::utf8::encode_scalar(a[0] as u32), encode_utf8(a.drop_first()), encode_utf8(b));
    }
}

proof fn lemma_first_line_of_line(l: Seq<u8>)
    requires
        forall|j: int| 0 <= j < l.len() ==> l[j] != 10u8,
    ensures
        first_line(l + seq![10u8]) == l,
    decreases l.len(),
{
    if l.len() == 0 {
        assert((l + seq![10u8])[0] == 10u8);
        assert(l =~= Seq::<u8>::empty());
    } else {
        assert((l + seq![10u8]).drop_first() =~= l.drop_first() + seq![10u8]);
        lemma_first_line_of_line(l.drop_first());
        assert(l =~= seq![l[0]] + l.drop_first());
    }
}

/// A pinning file written by saving `text` loads back as `text` parsed, when
/// `text` is a single line.
pub proof fn lemma_save_then_load(text: Seq<char>, canonical: Option<Seq<char>>)
    requires
        forall|j: int| 0 <= j < encode_utf8(text).len() ==> encode_utf8(text)[j] != 10u8,
    ensures
        loaded(encode_utf8(pinning_content(text)), canonical) == parsed(text, canonical),
{
    reveal_strlit("\n");
    lemma_encode_concat(text, "\n"@);
    vstd::string::is_ascii_spec_bytes("\n");
    assert(encode_utf8("\n"@) =~= seq![10u8]);
    lemma_first_line_of_line(encode_utf8(text));
    vstd::utf8::encode_utf8_decode_utf8(text);
}

/// No byte of `b` is a newline.
pub open spec fn single_line(b: Seq<u8>) -> bool {
    forall|j: int| 0 <= j < b.len() ==> b[j] != 10u8
}

/// Digits, `=`, space, dot or dash.
pub open spec fn plain_char(c: char) -> bool {
    ('0' <= c && c <= '9') || c == '=' || c == ' ' || c == '.' || c == '-'
}

proof fn lemma_plain_single_line(t: Seq<char>)
    requires
        forall|i: int| 0 <= i < t.len() ==> plain_char(#[trigger] t[i]),
    ensures
        single_line(encode_utf8(t)),
{
    assert(vstd::utf8::is_ascii_chars(t));
    vstd::utf8::is_ascii_chars_encode_utf8(t);
    assert forall|j: int| 0 <= j < encode_utf8(t).len() implies encode_utf8(t)[j] != 10u8 by {
        assert(plain_char(t[j]));
        assert(t[j] as u8 == encode_utf8(t)[j]);
    }
}

proof fn lemma_decimal_plain(n: nat)
    ensures
        forall|i: int| 0 <= i < decimal(n).len() ==> plain_char(#[trigger] decimal(n)[i]),
    decreases n,
{
    if n >= 10 {
        lemma_decimal_plain(n / 10);
        let d = decimal(n / 10);
        assert forall|i: int| 0 <= i < decimal(n).len() implies plain_char(#[trigger] decimal(n)[i]) by {
            if i < d.len() {
                assert(decimal(n)[i] == d[i]);
            }
        }
    }
}

proof fn lemma_single_line_concat(a: Seq<char>, b: Seq<char>)
    requires
        single_line(encode_utf8(a)),
        single_line(encode_utf8(b)),
    ensures
        single_line(encode_utf8(a + b)),
{
    lemma_encode_concat(a, b);
    let x = encode_utf8(a);
    let y = encode_utf8(b);
    assert forall|j: int| 0 <= j < (x + y).len() implies (x + y)[j] != 10u8 by {
        if j >= x.len() {
            assert((x + y)[j] == y[j - x.len()]);
        }
    }
}

proof fn lemma_identifiers_single_line(ids: Seq<IdentifierView>)
    requires
        forall|k: int|
            0 <= k < ids.len() ==> (#[trigger] ids[k] matches IdentifierView::AlphaNumeric(b) ==> (
            vstd::utf8::valid_utf8(b) && single_line(b))),
    ensures
        single_line(encode_utf8(identifiers_text(ids))),
    decreases ids.len(),
{
    if ids.len() > 0 {
        let first = identifier_text(ids[0]);
        match ids[0] {
            IdentifierView::Numeric(n) => {
                lemma_decimal_plain(n as nat);
                lemma_plain_single_line(decimal(n as nat));
            },
            IdentifierView::AlphaNumeric(b) => {
                vstd::utf8::decode_utf8_encode_utf8(b);
            },
        }
        if ids.len() > 1 {
            lemma_identifiers_single_line(ids.drop_first());
            lemma_plain_single_line(seq!['.']);
            lemma_single_line_concat(first, seq!['.']);
            lemma_single_line_concat(first + seq!['.'], identifiers_text(ids.drop_first()));
        }
    }
}

/// The exact requirement on a version is a single line when its text
/// identifiers hold no newline.
pub proof fn lemma_exact_requirement_single_line(v: Version)
    requires
        forall|k: int|
            0 <= k < v.pre@.len() ==> (#[trigger] v.pre@[k] matches Identifier::AlphaNumeric(s) ==> !s@.contains(
            '\n')),
    ensures
        single_line(encode_utf8(exact_requirement_text(v@))),
{
    let vv = v@;
    assert forall|k: int|
        0 <= k < vv.pre.len() implies (#[trigger] vv.pre[k] matches IdentifierView::AlphaNumeric(b) ==> (
    vstd::utf8::valid_utf8(b) && single_line(b))) by {
        if let Identifier::AlphaNumeric(s) = v.pre@[k] {
            vstd::utf8::encode_utf8_valid_utf8(s@);
            lemma_text_single_line(s@);
        }
    }
    lemma_decimal_plain(vv.major as nat);
    lemma_decimal_plain(vv.minor as nat);
    lemma_decimal_plain(vv.patch as nat);
    let eq = seq!['=', ' '];
    let dot = seq!['.'];
    lemma_plain_single_line(eq);
    lemma_plain_single_line(dot);
    lemma_plain_single_line(decimal(vv.major as nat));
    lemma_plain_single_line(decimal(vv.minor as nat));
    lemma_plain_single_line(decimal(vv.patch as nat));
    let a1 = eq + decimal(vv.major as nat);
    lemma_single_line_concat(eq, decimal(vv.major as nat));
    lemma_single_line_concat(a1, dot);
    lemma_single_line_concat(a1 + dot, decimal(vv.minor as nat));
    let a2 = a1 + dot + decimal(vv.minor as nat);
    lemma_single_line_concat(a2, dot);
    lemma_single_line_concat(a2 + dot, decimal(vv.patch as nat));
    let a3 = a2 + dot + decimal(vv.patch as nat);
    if vv.pre.len() == 0 {
        assert(exact_requirement_text(vv) =~= a3);
    } else {
        lemma_identifiers_single_line(vv.pre);
        lemma_plain_single_line(seq!['-']);
        lemma_single_line_concat(seq!['-'], identifiers_text(vv.pre));
        lemma_single_line_concat(a3, seq!['-'] + identifiers_text(vv.pre));
        assert(exact_requirement_text(vv) =~= a3 + (seq!['-'] + identifiers_text(vv.pre)));
    }
}

/// A character other than a newline encodes to bytes without a newline.
proof fn lemma_scalar_single_line(c: char)
    requires
        c != '\n',
    ensures
        single_line(encode_utf8(seq![c])),
{
    let u = c as u32;
    vstd::utf8::char_is_scalar(c);
    assert(seq![c].drop_first() =~= Seq::<char>::empty());
    assert(seq![c][0] == c);
    assert(encode_utf8(Seq::<char>::empty()) =~= Seq::<u8>::empty());
    assert(encode_utf8(seq![c]) == vstd::utf8::encode_scalar(u) + encode_utf8(seq![c].drop_first()));
    assert(encode_utf8(seq![c]) =~= vstd::utf8::encode_scalar(u));
    assert(forall|x: u8| (0x80u8 | x) != 10u8) by (bit_vector);
    assert(forall|x: u8| (0xC0u8 | x) != 10u8) by (bit_vector);
    assert(forall|x: u8| (0xE0u8 | x) != 10u8) by (bit_vector);
    assert(forall|x: u8| (0xF0u8 | x) != 10u8) by (bit_vector);
    if u <= 0x7F {
        assert(u != 10) by {
            if u == 10 {
                vstd::utf8::char_u32_cast(c, u);
                vstd::utf8::char_u32_cast('\n', 10u32);
            }
        }
        assert(((u & 0x7F) as u8) != 10u8) by (bit_vector)
            requires
                u <= 0x7F,
                u != 10,
        ;
    }
}

/// Text without a newline character encodes to bytes without a newline.
proof fn lemma_text_single_line(t: Seq<char>)
    requires
        !t.contains('\n'),
    ensures
        single_line(encode_utf8(t)),
    decreases t.len(),
{
    if t.len() > 0 {
        assert(t.drop_first() =~= t.subrange(1, t.len() as int));
        assert(!t.drop_first().contains('\n')) by {
            if t.drop_first().contains('\n') {
                let k = choose|k: int| 0 <= k < t.drop_first().len() && t.drop_first()[k] == '\n';
                assert(t[k + 1] == '\n');
            }
        }
        lemma_text_single_line(t.drop_first());
        assert(t[0] != '\n') by {
            if t[0] == '\n' {
                assert(t.contains('\n'));
            }
        }
        lemma_scalar_single_line(t[0]);
        assert(t =~= seq![t[0]] + t.drop_first());
        lemma_single_line_concat(seq![t[0]], t.drop_first());
    }
}

/// Saving the exact requirement on a version and loading the pinning file
/// again gives that requirement, read back by semver, when its text
/// identifiers hold no newline.
pub proof fn lemma_save_version_then_load(v: Version, canonical: Option<Seq<char>>)
    requires
        forall|k: int|
            0 <= k < v.pre@.len() ==> (#[trigger] v.pre@[k] matches Identifier::AlphaNumeric(s) ==> !s@.contains(
            '\n')),
    ensures
        loaded(encode_utf8(pinning_content(exact_requirement_text(v@))), canonical) == parsed(
            exact_requirement_text(v@),
            canonical,
        ),
{
    lemma_exact_requirement_single_line(v);
    lemma_save_then_load(exact_requirement_text(v@), canonical);
}

proof fn i_assoc(a: Seq<u8>, b: Seq<u8>, c: Seq<u8>)
    ensures
        a + (b + c) == (a + b) + c,
{
    assert(a + (b + c) =~= (a + b) + c);
}

} // verus!
