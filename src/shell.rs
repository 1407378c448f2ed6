//! The configuration block that the tool keeps in a shell startup file.
//!
//! The block runs from a border line followed by a line holding the start
//! marker, to a line holding the end marker followed by a border line.
//! Removing it walks the lines with one line of lookahead; writing it back
//! appends a fresh block after what is left.

use vstd::prelude::*;
use vstd::string::StringSliceAdditionalSpecFns;
use vstd::utf8::encode_utf8;
use crate::lines::{
    contains, contains_bytes, joined, lemma_lines_from_no_newlines, lemma_lines_of_joined, no_newlines,
    occurs_at, lemma_joined_concat, lemma_joined_push, lines_of, push_bytes,
    push_line, split_lines,
};

verus! {

/// Name of the executable.
pub const EXECUTABLE_NAME: &'static str = "pycors";

/// Text that identifies the line opening the block.
pub const SHELL_CONFIG_IDENTIFYING_PATTERN_START: &'static str =
    "pycors shell configuration begins >>>";

/// Text that identifies the line closing the block.
pub const SHELL_CONFIG_IDENTIFYING_PATTERN_END: &'static str =
    "<<< pycors shell configuration ends";

/// Decorative border around the block.
pub const BORDER: &'static str =
    "#############################################################################";

pub const COMMENT_ADDED: &'static str =
    "# These lines were added by pycors and are required for it to function";

pub const COMMENT_PROPERLY: &'static str = "# properly (including the comments!)";

pub const COMMENT_WARNING: &'static str =
    "# WARNING: Those lines _need_ to be at the end of the file: pycors needs to";

pub const COMMENT_PATH: &'static str =
    "#          appear as soon as possible in the $PATH environment variable to";

pub const COMMENT_FUNCTION: &'static str = "#          to function properly.";

pub const COMMENT_PREFIX: &'static str = "# ";

/// Start of the line that exports the configuration home.
pub const EXPORT_HOME_PREFIX: &'static str = "export PYCORS_HOME=\"";

pub const QUOTE: &'static str = "\"";

/// Line that sources the dedicated configuration file.
pub const SOURCE_CONFIG_LINE: &'static str = "source ${PYCORS_HOME}/shell/bash/config.sh";

pub const SOURCE_PREFIX: &'static str = "source \"";

/// Environment variable that holds the tool's configuration home.
pub const HOME_ENV_VARIABLE: &'static str = "PYCORS_HOME";

/// Default hidden configuration directory.
pub const DEFAULT_DOT_DIR: &'static str = ".pycors";

/// File that marks an installation made by this tool, in the parent of its directory.
pub const INFO_FILE: &'static str = "installed_by_pycors.txt";

/// Name of the pinning file.
pub const TOOLCHAIN_FILE: &'static str = ".python-version";

/// The environment variable used to find the configuration home.
pub fn home_env_variable() -> (r: &'static str)
    ensures
        r@ == HOME_ENV_VARIABLE@,
{
    HOME_ENV_VARIABLE
}

/// The shell code of the dedicated configuration file: put the shims
/// directory first on `PATH` once per shell, and take it out again while a
/// poetry shell is active.
pub open spec fn config_texts() -> Seq<Seq<char>> {
    seq![
        "# Add the shims directory to path, removing all other"@,
        "# occurrences of it from current $PATH."@,
        "if [ -z ${PYCORS_INITIALIZED+x} ]; then"@,
        "    # Setup pycors: prepends the shims directory to PATH"@,
        "    export PATH=\"${PYCORS_HOME}/shims:${PATH//${PYCORS_HOME}/}\""@,
        "    export PYCORS_INITIALIZED=1"@,
        "else"@,
        "    # Shell already setup for pycors."@,
        "    # Disable in case we enter a 'poetry shell'"@,
        "    if [ -z ${POETRY_ACTIVE+x} ]; then"@,
        "        # Not in a 'poetry shell', activating."@,
        "        export PATH=\"${PYCORS_HOME}/shims:${PATH//${PYCORS_HOME}/}\""@,
        "    else"@,
        "        # Poetry is active; disable the shim"@,
        "        echo \"Pycors detected an active poetry shell, disabling the shim.\""@,
        "        export PATH=\"${PATH//${PYCORS_HOME}/}\""@,
        "    fi"@,
        "fi"@,
    ]
}

/// The lines of shell code that the dedicated configuration file holds.
pub fn config_lines() -> (r: Vec<String>)
    ensures
        r@.map_values(|l: String| l@) == config_texts(),
{
    let mut r: Vec<String> = Vec::new();
    r.push("# Add the shims directory to path, removing all other".to_owned());
    r.push("# occurrences of it from current $PATH.".to_owned());
    r.push("if [ -z ${PYCORS_INITIALIZED+x} ]; then".to_owned());
    r.push("    # Setup pycors: prepends the shims directory to PATH".to_owned());
    r.push("    export PATH=\"${PYCORS_HOME}/shims:${PATH//${PYCORS_HOME}/}\"".to_owned());
    r.push("    export PYCORS_INITIALIZED=1".to_owned());
    r.push("else".to_owned());
    r.push("    # Shell already setup for pycors.".to_owned());
    r.push("    # Disable in case we enter a 'poetry shell'".to_owned());
    r.push("    if [ -z ${POETRY_ACTIVE+x} ]; then".to_owned());
    r.push("        # Not in a 'poetry shell', activating.".to_owned());
    r.push("        export PATH=\"${PYCORS_HOME}/shims:${PATH//${PYCORS_HOME}/}\"".to_owned());
    r.push("    else".to_owned());
    r.push("        # Poetry is active; disable the shim".to_owned());
    r.push("        echo \"Pycors detected an active poetry shell, disabling the shim.\"".to_owned());
    r.push("        export PATH=\"${PATH//${PYCORS_HOME}/}\"".to_owned());
    r.push("    fi".to_owned());
    r.push("fi".to_owned());
    assert(r@.map_values(|l: String| l@) =~= config_texts());
    r
}

pub open spec fn start_marker() -> Seq<u8> {
    SHELL_CONFIG_IDENTIFYING_PATTERN_START.spec_bytes()
}

pub open spec fn end_marker() -> Seq<u8> {
    SHELL_CONFIG_IDENTIFYING_PATTERN_END.spec_bytes()
}

/// The lines kept from `ls[i..]` when the walk reaches line `i` in the given state.
///
/// Outside the block, a line whose successor holds the start marker is the
/// opening border: the block begins and that line is dropped; any other line
/// is kept. Inside the block, a line holding the end marker closes it; it and
/// the border after it are dropped, and so is any other line. The last line, having no
/// successor, is kept when outside the block. A block that is opened and
/// never closed runs to the end of the file, which is dropped with it.
pub open spec fn kept(ls: Seq<Seq<u8>>, i: int, outside: bool) -> Seq<Seq<u8>>
    decreases ls.len() - i,
{
    if i >= ls.len() {
        Seq::empty()
    } else if i + 1 == ls.len() {
        if outside {
            seq![ls[i]]
        } else {
            Seq::empty()
        }
    } else if outside {
        if contains(ls[i + 1], start_marker()) {
            kept(ls, i + 1, false)
        } else {
            seq![ls[i]] + kept(ls, i + 1, true)
        }
    } else if contains(ls[i], end_marker()) {
        kept(ls, i + 2, true)
    } else {
        kept(ls, i + 1, false)
    }
}

/// The lines of `content` without the block.
pub open spec fn without_block(content: Seq<u8>) -> Seq<Seq<u8>> {
    kept(lines_of(content), 0, true)
}

pub open spec fn header_lines() -> Seq<Seq<u8>> {
    seq![
        BORDER.spec_bytes(),
        COMMENT_PREFIX.spec_bytes() + start_marker(),
        COMMENT_ADDED.spec_bytes(),
        COMMENT_PROPERLY.spec_bytes(),
        COMMENT_WARNING.spec_bytes(),
        COMMENT_PATH.spec_bytes(),
        COMMENT_FUNCTION.spec_bytes(),
    ]
}

pub open spec fn footer_lines() -> Seq<Seq<u8>> {
    seq![COMMENT_PREFIX.spec_bytes() + end_marker(), BORDER.spec_bytes()]
}

pub open spec fn export_home_line(config_home: Seq<u8>) -> Seq<u8> {
    EXPORT_HOME_PREFIX.spec_bytes() + config_home + QUOTE.spec_bytes()
}

/// The lines between header and footer: where the configuration home is,
/// and the sourcing of the dedicated configuration file.
pub open spec fn export_lines(config_home: Seq<u8>) -> Seq<Seq<u8>> {
    seq![export_home_line(config_home), SOURCE_CONFIG_LINE.spec_bytes()]
}

/// The whole block written into a shell startup file.
pub open spec fn block_lines(config_home: Seq<u8>) -> Seq<Seq<u8>> {
    header_lines() + export_lines(config_home) + footer_lines()
}

/// A shell startup file after setup: its lines without the old block, then a fresh block.
pub open spec fn configured(content: Seq<u8>, config_home: Seq<u8>) -> Seq<u8> {
    joined(without_block(content) + block_lines(config_home))
}

/// Appends `line` and a newline to `out`, which holds `pre` and then the
/// lines `written`; returns the lines written after `pre` from now on.
fn emit(
    out: &mut Vec<u8>,
    line: &[u8],
    Ghost(pre): Ghost<Seq<u8>>,
    Ghost(written): Ghost<Seq<Seq<u8>>>,
) -> (r: Ghost<Seq<Seq<u8>>>)
    requires
        old(out)@ == pre + joined(written),
    ensures
        r@ == written.push(line@),
        final(out)@ == pre + joined(r@),
{
    push_line(out, line);
    proof {
        lemma_joined_push(written, line@);
        assert(final(out)@ =~= pre + joined(written.push(line@)));
    }
    Ghost(written.push(line@))
}

/// Copies `content` with the block taken out, each kept line ending in a newline.
pub fn remove_block(content: &[u8]) -> (r: Vec<u8>)
    ensures
        r@ == joined(without_block(content@)),
{
    let lines = split_lines(content);
    let ghost ls = lines_of(content@);
    let start = SHELL_CONFIG_IDENTIFYING_PATTERN_START.as_bytes();
    let end = SHELL_CONFIG_IDENTIFYING_PATTERN_END.as_bytes();
    let mut out: Vec<u8> = Vec::new();
    let ghost mut written: Seq<Seq<u8>> = Seq::empty();
    let mut idx: usize = 0;
    let mut outside = true;
    while idx < lines.len()
        invariant
            lines@.len() == ls.len(),
            forall|k: int| 0 <= k < ls.len() ==> #[trigger] lines@[k]@ == ls[k],
            start@ == start_marker(),
            end@ == end_marker(),
            idx <= ls.len() + 1,
            out@ == Seq::<u8>::empty() + joined(written),
            written + kept(ls, idx as int, outside) == kept(ls, 0, true),
        decreases ls.len() + 1 - idx,
    {
        if idx + 1 == lines.len() {
            if outside {
                let g = emit(&mut out, lines[idx].as_slice(), Ghost(Seq::empty()), Ghost(written));
                proof {
                    assert(written.push(ls[idx as int]) =~= written + seq![ls[idx as int]]);
                    written = g@;
                }
            } else {
                assert(written + Seq::<Seq<u8>>::empty() =~= written);
            }
            idx = idx + 1;
        } else if outside {
            if contains_bytes(lines[idx + 1].as_slice(), start) {
                outside = false;
            } else {
                let g = emit(&mut out, lines[idx].as_slice(), Ghost(Seq::empty()), Ghost(written));
                proof {
                    assert(written.push(ls[idx as int]) + kept(ls, idx + 1, true) =~= written + (
                    seq![ls[idx as int]] + kept(ls, idx + 1, true)));
                    written = g@;
                }
            }
            idx = idx + 1;
        } else if contains_bytes(lines[idx].as_slice(), end) {
            outside = true;
            idx = idx + 2;
        } else {
            idx = idx + 1;
        }
    }
    assert(written + Seq::<Seq<u8>>::empty() =~= written);
    assert(Seq::<u8>::empty() + joined(written) =~= joined(written));
    out
}

/// The bytes of `a` followed by those of `b`.
fn concat_bytes(a: &[u8], b: &[u8]) -> (r: Vec<u8>)
    ensures
        r@ == a@ + b@,
{
    let mut r: Vec<u8> = Vec::new();
    push_bytes(&mut r, a);
    push_bytes(&mut r, b);
    assert(r@ =~= a@ + b@);
    r
}

/// Appends the opening border, the start marker and the explanatory comment.
pub fn write_header_to(out: &mut Vec<u8>)
    ensures
        final(out)@ == old(out)@ + joined(header_lines()),
{
    let ghost pre = out@;
    assert(pre =~= pre + joined(Seq::empty()));
    let g = emit(out, BORDER.as_bytes(), Ghost(pre), Ghost(Seq::empty()));
    let start = concat_bytes(COMMENT_PREFIX.as_bytes(), SHELL_CONFIG_IDENTIFYING_PATTERN_START.as_bytes());
    let g = emit(out, start.as_slice(), Ghost(pre), g);
    let g = emit(out, COMMENT_ADDED.as_bytes(), Ghost(pre), g);
    let g = emit(out, COMMENT_PROPERLY.as_bytes(), Ghost(pre), g);
    let g = emit(out, COMMENT_WARNING.as_bytes(), Ghost(pre), g);
    let g = emit(out, COMMENT_PATH.as_bytes(), Ghost(pre), g);
    let g = emit(out, COMMENT_FUNCTION.as_bytes(), Ghost(pre), g);
    assert(g@ =~= header_lines());
}

/// Appends the end marker and the closing border.
pub fn write_footer_to(out: &mut Vec<u8>)
    ensures
        final(out)@ == old(out)@ + joined(footer_lines()),
{
    let ghost pre = out@;
    assert(pre =~= pre + joined(Seq::empty()));
    let end = concat_bytes(COMMENT_PREFIX.as_bytes(), SHELL_CONFIG_IDENTIFYING_PATTERN_END.as_bytes());
    let g = emit(out, end.as_slice(), Ghost(pre), Ghost(Seq::empty()));
    let g = emit(out, BORDER.as_bytes(), Ghost(pre), g);
    assert(g@ =~= footer_lines());
}

/// The UTF-8 bytes of each string.
pub open spec fn text_lines(ls: Seq<String>) -> Seq<Seq<u8>> {
    ls.map_values(|l: String| encode_utf8(l@))
}

/// The line that sources the completion script at `autocomplete_file`.
pub open spec fn source_line(autocomplete_file: Seq<u8>) -> Seq<u8> {
    SOURCE_PREFIX.spec_bytes() + autocomplete_file + QUOTE.spec_bytes()
}

/// Appends each of `lines_to_append`, then a line that sources `autocomplete_file`.
pub fn write_config_to(out: &mut Vec<u8>, lines_to_append: &[String], autocomplete_file: &str)
    ensures
        final(out)@ == old(out)@ + joined(
            text_lines(lines_to_append@) + seq![source_line(autocomplete_file.spec_bytes())],
        ),
{
    let ghost pre = out@;
    assert(pre =~= pre + joined(Seq::empty()));
    let ghost mut written: Seq<Seq<u8>> = Seq::empty();
    let mut i: usize = 0;
    while i < lines_to_append.len()
        invariant
            i <= lines_to_append@.len(),
            out@ == pre + joined(written),
            written =~= text_lines(lines_to_append@).subrange(0, i as int),
        decreases lines_to_append@.len() - i,
    {
        let g = emit(out, lines_to_append[i].as_str().as_bytes(), Ghost(pre), Ghost(written));
        proof {
            written = g@;
        }
        i = i + 1;
    }
    let quoted = concat_bytes(SOURCE_PREFIX.as_bytes(), autocomplete_file.as_bytes());
    let source = concat_bytes(quoted.as_slice(), QUOTE.as_bytes());
    let g = emit(out, source.as_slice(), Ghost(pre), Ghost(written));
    assert(g@ =~= text_lines(lines_to_append@) + seq![source_line(autocomplete_file.spec_bytes())]);
}

/// Content of a shell startup file after setup: `content` without its block,
/// then a fresh block that points the shell at `config_home`.
pub fn configure_shell_file(content: &[u8], config_home: &str) -> (r: Vec<u8>)
    ensures
        r@ == configured(content@, config_home.spec_bytes()),
{
    let mut out = remove_block(content);
    write_header_to(&mut out);
    let ghost pre = out@;
    assert(pre =~= pre + joined(Seq::empty()));
    let home = concat_bytes(EXPORT_HOME_PREFIX.as_bytes(), config_home.as_bytes());
    let home_line = concat_bytes(home.as_slice(), QUOTE.as_bytes());
    let g = emit(&mut out, home_line.as_slice(), Ghost(pre), Ghost(Seq::empty()));
    let g = emit(&mut out, SOURCE_CONFIG_LINE.as_bytes(), Ghost(pre), g);
    assert(g@ =~= export_lines(config_home.spec_bytes()));
    write_footer_to(&mut out);
    proof {
        let w = without_block(content@);
        let h = header_lines();
        let e = export_lines(config_home.spec_bytes());
        let f = footer_lines();
        lemma_joined_concat(h, e);
        lemma_joined_concat(h + e, f);
        lemma_joined_concat(w, h + e + f);
        assert(out@ =~= joined(w) + joined(h) + joined(e) + joined(f));
        assert(w + block_lines(config_home.spec_bytes()) =~= w + (h + e + f));
    }
    out
}

/// Space, tab, line feed, vertical tab, form feed or carriage return.
pub open spec fn is_ascii_space(b: u8) -> bool {
    b == 32u8 || b == 9u8 || b == 10u8 || b == 11u8 || b == 12u8 || b == 13u8
}

/// `s` without the ASCII white space at its start.
pub open spec fn trim_start(s: Seq<u8>) -> Seq<u8>
    decreases s.len(),
{
    if s.len() > 0 && is_ascii_space(s[0]) {
        trim_start(s.drop_first())
    } else {
        s
    }
}

/// `s` without the ASCII white space at its end.
pub open spec fn trim_end(s: Seq<u8>) -> Seq<u8>
    decreases s.len(),
{
    if s.len() > 0 && is_ascii_space(s.last()) {
        trim_end(s.drop_last())
    } else {
        s
    }
}

/// `s` with every leading repetition of the non-empty `p` taken off.
pub open spec fn strip_repeated(s: Seq<u8>, p: Seq<u8>) -> Seq<u8>
    decreases s.len(),
{
    if p.len() > 0 && p.len() <= s.len() && s.subrange(0, p.len() as int) == p {
        strip_repeated(s.subrange(p.len() as int, s.len() as int), p)
    } else {
        s
    }
}

/// What a line of the file is compared with: the pattern without leading
/// `#` characters and without surrounding white space.
pub open spec fn wanted_line(pattern: Seq<u8>) -> Seq<u8> {
    trim_end(trim_start(strip_repeated(pattern, seq![35u8])))
}

/// Line `i` of `content` as a line reader gives it: a line ended by a
/// newline loses one carriage return before it.
pub open spec fn read_line(content: Seq<u8>, i: int) -> Seq<u8> {
    let l = lines_of(content)[i];
    if (i + 1 < lines_of(content).len() || content.last() == 10u8) && l.len() > 0 && l.last() == 13u8 {
        l.drop_last()
    } else {
        l
    }
}

/// A line stands for the pattern once its leading `"# "` repetitions are off.
pub open spec fn file_holds(content: Seq<u8>, pattern: Seq<u8>) -> bool {
    exists|i: int|
        0 <= i < lines_of(content).len() && strip_repeated(#[trigger] read_line(content, i), seq![35u8, 32u8])
            == wanted_line(pattern)
}

/// Start of what is left of `s[lo..hi]` once the repetitions of `p` are off.
fn strip_repeated_from(s: &[u8], p: &[u8], lo: usize, hi: usize) -> (r: usize)
    requires
        lo <= hi <= s@.len(),
    ensures
        lo <= r <= hi,
        s@.subrange(r as int, hi as int) == strip_repeated(
            s@.subrange(lo as int, hi as int),
            p@,
        ),
{
    let mut i: usize = lo;
    if p.len() == 0 {
        return i;
    }
    while p.len() <= hi - i && occurs_at(s, p, i)
        invariant
            lo <= i <= hi <= s@.len(),
            p@.len() > 0,
            strip_repeated(s@.subrange(i as int, hi as int), p@) == strip_repeated(
                s@.subrange(lo as int, hi as int),
                p@,
            ),
        decreases hi - i,
    {
        let ghost t = s@.subrange(i as int, hi as int);
        assert(t.subrange(0, p@.len() as int) =~= s@.subrange(i as int, i + p@.len()));
        assert(t.subrange(p@.len() as int, t.len() as int) =~= s@.subrange(i + p@.len(), hi as int));
        i = i + p.len();
    }
    proof {
        let t = s@.subrange(i as int, hi as int);
        if p@.len() <= t.len() {
            assert(t.subrange(0, p@.len() as int) =~= s@.subrange(i as int, i + p@.len()));
        }
    }
    i
}

/// The bounds of `s[lo..hi]` without surrounding ASCII white space.
fn trim_bounds(s: &[u8], lo: usize, hi: usize) -> (r: (usize, usize))
    requires
        lo <= hi <= s@.len(),
    ensures
        lo <= r.0 <= r.1 <= hi,
        s@.subrange(r.0 as int, r.1 as int) == trim_end(trim_start(s@.subrange(lo as int, hi as int))),
{
    let mut a: usize = lo;
    while a < hi && (s[a] == 32u8 || s[a] == 9u8 || s[a] == 10u8 || s[a] == 11u8 || s[a] == 12u8
        || s[a] == 13u8)
        invariant
            lo <= a <= hi <= s@.len(),
            trim_start(s@.subrange(a as int, hi as int)) == trim_start(s@.subrange(lo as int, hi as int)),
        decreases hi - a,
    {
        assert(s@.subrange(a as int, hi as int).drop_first() =~= s@.subrange(a + 1, hi as int));
        a = a + 1;
    }
    let mut b: usize = hi;
    assert(trim_start(s@.subrange(a as int, hi as int)) == s@.subrange(a as int, hi as int));
    while b > a && (s[b - 1] == 32u8 || s[b - 1] == 9u8 || s[b - 1] == 10u8 || s[b - 1] == 11u8
        || s[b - 1] == 12u8 || s[b - 1] == 13u8)
        invariant
            lo <= a <= b <= hi <= s@.len(),
            trim_end(s@.subrange(a as int, b as int)) == trim_end(trim_start(s@.subrange(lo as int, hi as int))),
        decreases b - a,
    {
        assert(s@.subrange(a as int, b as int).drop_last() =~= s@.subrange(a as int, b - 1));
        b = b - 1;
    }
    (a, b)
}

/// Whether `s[lo..hi]` and `t[a..b]` hold the same bytes.
fn same_bytes(s: &[u8], lo: usize, hi: usize, t: &[u8], a: usize, b: usize) -> (r: bool)
    requires
        lo <= hi <= s@.len(),
        a <= b <= t@.len(),
    ensures
        r == (s@.subrange(lo as int, hi as int) == t@.subrange(a as int, b as int)),
{
    let n: usize = hi;
    if n - lo != b - a {
        assert(s@.subrange(lo as int, n as int).len() != t@.subrange(a as int, b as int).len());
        return false;
    }
    let mut k: usize = 0;
    while k < b - a
        invariant
            n == hi,
            hi <= s@.len(),
            lo <= n,
            a <= b <= t@.len(),
            n - lo == b - a,
            k <= b - a,
            forall|m: int| 0 <= m < k ==> #[trigger] s@[lo + m] == t@[a + m],
        decreases b - a - k,
    {
        if s[lo + k] != t[a + k] {
            assert(s@.subrange(lo as int, n as int)[k as int] != t@.subrange(a as int, b as int)[k as int]);
            return false;
        }
        k = k + 1;
    }
    assert forall|m: int| 0 <= m < b - a implies s@.subrange(lo as int, n as int)[m] == t@.subrange(
        a as int,
        b as int,
    )[m] by {
        assert(s@[lo + m] == t@[a + m]);
    }
    assert(s@.subrange(lo as int, n as int) =~= t@.subrange(a as int, b as int));
    true
}

/// Whether some line of `content`, read as a line reader gives it and with
/// its leading `"# "` off, is the pattern `line_to_check` without its
/// leading `#` and surrounding white space. Only ASCII white space is
/// trimmed (space, tab, line feed, vertical tab, form feed, carriage
/// return); other Unicode white space stays part of the pattern.
pub fn file_contains(content: &[u8], line_to_check: &[u8]) -> (r: bool)
    ensures
        r == file_holds(content@, line_to_check@),
{
    let hash: Vec<u8> = vec![35u8];
    let hash_space: Vec<u8> = vec![35u8, 32u8];
    assert(hash@ =~= seq![35u8]);
    assert(hash_space@ =~= seq![35u8, 32u8]);
    let from = strip_repeated_from(line_to_check, hash.as_slice(), 0, line_to_check.len());
    let bounds = trim_bounds(line_to_check, from, line_to_check.len());
    assert(line_to_check@.subrange(0, line_to_check@.len() as int) =~= line_to_check@);
    let ends_with_newline = content.len() > 0 && content[content.len() - 1] == 10u8;
    let lines = split_lines(content);
    let ghost ls = lines_of(content@);
    let mut i: usize = 0;
    while i < lines.len()
        invariant
            ls == lines_of(content@),
            lines@.len() == ls.len(),
            forall|k: int| 0 <= k < ls.len() ==> #[trigger] lines@[k]@ == ls[k],
            ends_with_newline == (content@.len() > 0 && content@.last() == 10u8),
            hash_space@ == seq![35u8, 32u8],
            bounds.0 <= bounds.1 <= line_to_check@.len(),
            line_to_check@.subrange(bounds.0 as int, bounds.1 as int) == wanted_line(line_to_check@),
            i <= ls.len(),
            forall|k: int|
                0 <= k < i ==> strip_repeated(#[trigger] read_line(content@, k), seq![35u8, 32u8])
                    != wanted_line(line_to_check@),
        decreases ls.len() - i,
    {
        let line = lines[i].as_slice();
        let mut hi: usize = line.len();
        if (i + 1 < lines.len() || ends_with_newline) && hi > 0 && line[hi - 1] == 13u8 {
            hi = hi - 1;
        }
        proof {
            if content@.len() == 0 {
                assert(lines_of(content@).len() == 0);
            }
        }
        assert(line@.subrange(0, hi as int) == read_line(content@, i as int));
        let rest = strip_repeated_from(line, hash_space.as_slice(), 0, hi);
        if same_bytes(line, rest, hi, line_to_check, bounds.0, bounds.1) {
            assert(strip_repeated(read_line(content@, i as int), seq![35u8, 32u8]) == wanted_line(
                line_to_check@,
            ));
            assert(file_holds(content@, line_to_check@));
            return true;
        }
        i = i + 1;
    }
    false
}

/// No byte of `s` is `b`.
#[verifier::opaque]
pub open spec fn lacks(s: Seq<u8>, b: u8) -> bool {
    forall|j: int| 0 <= j < s.len() ==> s[j] != b
}

proof fn lemma_lacks_concat(a: Seq<u8>, c: Seq<u8>, b: u8)
    requires
        lacks(a, b),
        lacks(c, b),
    ensures
        lacks(a + c, b),
{
    reveal(lacks);
    assert forall|j: int| 0 <= j < (a + c).len() implies (a + c)[j] != b by {
        if j >= a.len() {
            assert((a + c)[j] == c[j - a.len()]);
        }
    }
}

/// A line without one of the pattern's bytes does not hold the pattern.
proof fn lemma_missing_byte(line: Seq<u8>, pat: Seq<u8>, k: int)
    requires
        0 <= k < pat.len(),
        lacks(line, pat[k]),
    ensures
        !contains(line, pat),
{
    reveal(lacks);
    reveal(contains);
    if contains(line, pat) {
        let m = choose|m: int|
            0 <= m && m + pat.len() <= line.len() && #[trigger] line.subrange(m, m + pat.len()) == pat;
        assert(line.subrange(m, m + pat.len())[k] == line[m + k]);
    }
}

/// A line that ends with the pattern holds it.
proof fn lemma_ends_with(p: Seq<u8>, pat: Seq<u8>)
    ensures
        contains(p + pat, pat),
{
    reveal(contains);
    assert((p + pat).subrange(p.len() as int, p.len() + pat.len() as int) =~= pat);
}

/// What the fixed text of the block is made of.
proof fn lemma_fixed_text()
    ensures
        lacks(BORDER.spec_bytes(), 62u8),
        lacks(BORDER.spec_bytes(), 10u8),
        lacks(COMMENT_PREFIX.spec_bytes(), 60u8),
        lacks(COMMENT_PREFIX.spec_bytes(), 62u8),
        lacks(COMMENT_PREFIX.spec_bytes(), 10u8),
        lacks(COMMENT_ADDED.spec_bytes(), 60u8),
        lacks(COMMENT_ADDED.spec_bytes(), 62u8),
        lacks(COMMENT_PROPERLY.spec_bytes(), 62u8),
        lacks(COMMENT_WARNING.spec_bytes(), 62u8),
        lacks(COMMENT_PATH.spec_bytes(), 62u8),
        lacks(COMMENT_FUNCTION.spec_bytes(), 62u8),
        lacks(SOURCE_CONFIG_LINE.spec_bytes(), 62u8),
        lacks(COMMENT_ADDED.spec_bytes(), 10u8),
        lacks(COMMENT_PROPERLY.spec_bytes(), 60u8),
        lacks(COMMENT_PROPERLY.spec_bytes(), 10u8),
        lacks(COMMENT_WARNING.spec_bytes(), 60u8),
        lacks(COMMENT_WARNING.spec_bytes(), 10u8),
        lacks(COMMENT_PATH.spec_bytes(), 60u8),
        lacks(COMMENT_PATH.spec_bytes(), 10u8),
        lacks(COMMENT_FUNCTION.spec_bytes(), 60u8),
        lacks(COMMENT_FUNCTION.spec_bytes(), 10u8),
        lacks(SOURCE_CONFIG_LINE.spec_bytes(), 60u8),
        lacks(SOURCE_CONFIG_LINE.spec_bytes(), 10u8),
        lacks(EXPORT_HOME_PREFIX.spec_bytes(), 10u8),
        lacks(QUOTE.spec_bytes(), 10u8),
        lacks(start_marker(), 60u8),
        lacks(start_marker(), 10u8),
        lacks(end_marker(), 62u8),
        lacks(end_marker(), 10u8),
        start_marker().len() > 0,
        start_marker().last() == 62u8,
        end_marker().len() > 0,
        end_marker()[0] == 60u8,
{
    reveal(lacks);
    reveal_strlit("#############################################################################");
    reveal_strlit("# ");
    reveal_strlit("# These lines were added by pycors and are required for it to function");
    reveal_strlit("# properly (including the comments!)");
    reveal_strlit("# WARNING: Those lines _need_ to be at the end of the file: pycors needs to");
    reveal_strlit("#          appear as soon as possible in the $PATH environment variable to");
    reveal_strlit("#          to function properly.");
    reveal_strlit("source ${PYCORS_HOME}/shell/bash/config.sh");
    reveal_strlit("export PYCORS_HOME=\"");
    reveal_strlit("\"");
    reveal_strlit("pycors shell configuration begins >>>");
    reveal_strlit("<<< pycors shell configuration ends");
    vstd::string::is_ascii_spec_bytes(BORDER);
    vstd::string::is_ascii_spec_bytes(COMMENT_PREFIX);
    vstd::string::is_ascii_spec_bytes(COMMENT_ADDED);
    vstd::string::is_ascii_spec_bytes(COMMENT_PROPERLY);
    vstd::string::is_ascii_spec_bytes(COMMENT_WARNING);
    vstd::string::is_ascii_spec_bytes(COMMENT_PATH);
    vstd::string::is_ascii_spec_bytes(COMMENT_FUNCTION);
    vstd::string::is_ascii_spec_bytes(SOURCE_CONFIG_LINE);
    vstd::string::is_ascii_spec_bytes(EXPORT_HOME_PREFIX);
    vstd::string::is_ascii_spec_bytes(QUOTE);
    vstd::string::is_ascii_spec_bytes(SHELL_CONFIG_IDENTIFYING_PATTERN_START);
    vstd::string::is_ascii_spec_bytes(SHELL_CONFIG_IDENTIFYING_PATTERN_END);
}

/// Outside the block, lines that neither close it nor precede its opening are all kept.
proof fn lemma_outside_run(ls: Seq<Seq<u8>>, i: int, j: int)
    requires
        0 <= i <= j <= ls.len(),
        forall|k: int| i <= k < j && k + 1 < ls.len() ==> !contains(#[trigger] ls[k + 1], start_marker()),
    ensures
        kept(ls, i, true) == ls.subrange(i, j) + kept(ls, j, true),
    decreases j - i,
{
    if i == j {
        assert(ls.subrange(i, j) + kept(ls, j, true) =~= kept(ls, j, true));
    } else if i + 1 == ls.len() {
        assert(ls.subrange(i, j) =~= seq![ls[i]]);
        assert(seq![ls[i]] + Seq::<Seq<u8>>::empty() =~= seq![ls[i]]);
    } else {
        assert(!contains(ls[i + 1], start_marker()));
        lemma_outside_run(ls, i + 1, j);
        assert(seq![ls[i]] + (ls.subrange(i + 1, j) + kept(ls, j, true)) =~= ls.subrange(i, j) + kept(
            ls,
            j,
            true,
        ));
    }
}

/// Inside the block, lines that do not close it are all dropped.
proof fn lemma_inside_run(ls: Seq<Seq<u8>>, i: int, j: int)
    requires
        0 <= i <= j < ls.len(),
        forall|k: int| i <= k < j ==> !contains(#[trigger] ls[k], end_marker()),
    ensures
        kept(ls, i, false) == kept(ls, j, false),
    decreases j - i,
{
    if i < j {
        assert(!contains(ls[i], end_marker()));
        lemma_inside_run(ls, i + 1, j);
    }
}

/// Removing the block from a file that holds no block, that is no line with
/// the start marker, gives the file back.
pub proof fn lemma_remove_block_no_block(ls: Seq<Seq<u8>>)
    requires
        no_newlines(ls),
        forall|k: int| 0 <= k < ls.len() ==> !contains(#[trigger] ls[k], start_marker()),
    ensures
        without_block(joined(ls)) == ls,
        joined(without_block(joined(ls))) == joined(ls),
{
    lemma_lines_of_joined(ls);
    assert forall|k: int| 0 <= k < ls.len() && k + 1 < ls.len() implies !contains(
        #[trigger] ls[k + 1],
        start_marker(),
    ) by {}
    lemma_outside_run(ls, 0, ls.len() as int);
    assert(ls.subrange(0, ls.len() as int) + Seq::<Seq<u8>>::empty() =~= ls);
}

/// Removing one block takes out exactly its lines: the opening border, the
/// start line, the body, the end line and the closing border; the lines
/// around it, which hold no start marker, stay in order.
pub proof fn lemma_remove_block_one_block(
    before: Seq<Seq<u8>>,
    open_border: Seq<u8>,
    start_line: Seq<u8>,
    body: Seq<Seq<u8>>,
    end_line: Seq<u8>,
    close_border: Seq<u8>,
    after: Seq<Seq<u8>>,
)
    requires
        no_newlines(before + seq![open_border, start_line] + body + seq![end_line, close_border] + after),
        forall|k: int| 0 <= k < before.len() ==> !contains(#[trigger] before[k], start_marker()),
        forall|k: int| 0 <= k < body.len() ==> !contains(#[trigger] body[k], end_marker()),
        forall|k: int| 0 <= k < after.len() ==> !contains(#[trigger] after[k], start_marker()),
        !contains(open_border, start_marker()),
        contains(start_line, start_marker()),
        !contains(start_line, end_marker()),
        contains(end_line, end_marker()),
    ensures
        without_block(
            joined(before + seq![open_border, start_line] + body + seq![end_line, close_border] + after),
        ) == before + after,
{
    let ls = before + seq![open_border, start_line] + body + seq![end_line, close_border] + after;
    lemma_lines_of_joined(ls);
    let p = before.len() as int;
    let q = p + 2 + body.len();
    let n = ls.len() as int;
    assert(ls[p] == open_border);
    assert(ls[p + 1] == start_line);
    assert(ls[q] == end_line);
    assert(ls[q + 1] == close_border);
    assert forall|k: int| 0 <= k < p && k + 1 < n implies !contains(#[trigger] ls[k + 1], start_marker()) by {
        if k + 1 < p {
            assert(ls[k + 1] == before[k + 1]);
        }
    }
    lemma_outside_run(ls, 0, p);
    assert forall|k: int| p + 1 <= k < q implies !contains(#[trigger] ls[k], end_marker()) by {
        if k > p + 1 {
            assert(ls[k] == body[k - p - 2]);
        }
    }
    lemma_inside_run(ls, p + 1, q);
    assert forall|k: int| q + 2 <= k < n && k + 1 < n implies !contains(#[trigger] ls[k + 1], start_marker()) by {
        assert(ls[k + 1] == after[k + 1 - q - 2]);
    }
    lemma_outside_run(ls, q + 2, n);
    assert(ls.subrange(0, p) =~= before);
    assert(ls.subrange(q + 2, n) =~= after);
    assert(before + (after + Seq::<Seq<u8>>::empty()) =~= before + after);
}

proof fn lemma_kept_no_newlines(ls: Seq<Seq<u8>>, i: int, outside: bool)
    requires
        0 <= i,
        no_newlines(ls),
    ensures
        no_newlines(kept(ls, i, outside)),
    decreases ls.len() - i,
{
    if i >= ls.len() {
    } else if i + 1 == ls.len() {
        if outside {
            assert(seq![ls[i]][0] == ls[i]);
        }
    } else if outside && contains(ls[i + 1], start_marker()) {
        lemma_kept_no_newlines(ls, i + 1, false);
    } else if !outside && contains(ls[i], end_marker()) {
        lemma_kept_no_newlines(ls, i + 2, true);
    } else if outside {
        lemma_kept_no_newlines(ls, i + 1, true);
        let t = kept(ls, i + 1, true);
        assert forall|a: int, j: int|
            0 <= a < (seq![ls[i]] + t).len() && 0 <= j < (seq![ls[i]] + t)[a].len() implies (seq![ls[i]]
            + t)[a][j] != 10u8 by {
            if a > 0 {
                assert((seq![ls[i]] + t)[a] == t[a - 1]);
            }
        }
    } else {
        lemma_kept_no_newlines(ls, i + 1, false);
    }
}

proof fn lemma_lacks_newline_each(ls: Seq<Seq<u8>>)
    requires
        forall|a: int| 0 <= a < ls.len() ==> lacks(#[trigger] ls[a], 10u8),
    ensures
        no_newlines(ls),
{
    reveal(lacks);
    assert forall|a: int, j: int| 0 <= a < ls.len() && 0 <= j < ls[a].len() implies ls[a][j] != 10u8 by {
        assert(lacks(ls[a], 10u8));
    }
}

/// How the lines of a fresh block meet the removal walk.
#[verifier::rlimit(60)]
proof fn lemma_block_shape(config_home: Seq<u8>)
    requires
        lacks(config_home, 10u8),
        !contains(export_home_line(config_home), end_marker()),
    ensures
        block_lines(config_home).len() == 11,
        no_newlines(block_lines(config_home)),
        !contains(block_lines(config_home)[0], start_marker()),
        contains(block_lines(config_home)[1], start_marker()),
        forall|k: int| 1 <= k < 9 ==> !contains(#[trigger] block_lines(config_home)[k], end_marker()),
        contains(block_lines(config_home)[9], end_marker()),
        !contains(block_lines(config_home)[10], start_marker()),
        forall|k: int|
            0 <= k < 11 && k != 1 && k != 7 ==> !contains(#[trigger] block_lines(config_home)[k], start_marker()),
{
    let b = block_lines(config_home);
    lemma_fixed_text();
    assert(b =~= seq![
        BORDER.spec_bytes(),
        COMMENT_PREFIX.spec_bytes() + start_marker(),
        COMMENT_ADDED.spec_bytes(),
        COMMENT_PROPERLY.spec_bytes(),
        COMMENT_WARNING.spec_bytes(),
        COMMENT_PATH.spec_bytes(),
        COMMENT_FUNCTION.spec_bytes(),
        export_home_line(config_home),
        SOURCE_CONFIG_LINE.spec_bytes(),
        COMMENT_PREFIX.spec_bytes() + end_marker(),
        BORDER.spec_bytes(),
    ]);
    let start_line = COMMENT_PREFIX.spec_bytes() + start_marker();
    let end_line = COMMENT_PREFIX.spec_bytes() + end_marker();
    lemma_lacks_concat(COMMENT_PREFIX.spec_bytes(), start_marker(), 10u8);
    lemma_lacks_concat(COMMENT_PREFIX.spec_bytes(), start_marker(), 60u8);
    lemma_lacks_concat(COMMENT_PREFIX.spec_bytes(), end_marker(), 10u8);
    lemma_lacks_concat(COMMENT_PREFIX.spec_bytes(), end_marker(), 62u8);
    lemma_lacks_concat(EXPORT_HOME_PREFIX.spec_bytes(), config_home, 10u8);
    lemma_lacks_concat(EXPORT_HOME_PREFIX.spec_bytes() + config_home, QUOTE.spec_bytes(), 10u8);
    assert(b[1] == start_line);
    assert(b[7] == export_home_line(config_home));
    assert(b[9] == end_line);
    assert(b[0] == BORDER.spec_bytes());
    assert(b[2] == COMMENT_ADDED.spec_bytes());
    assert(b[3] == COMMENT_PROPERLY.spec_bytes());
    assert(b[4] == COMMENT_WARNING.spec_bytes());
    assert(b[5] == COMMENT_PATH.spec_bytes());
    assert(b[6] == COMMENT_FUNCTION.spec_bytes());
    assert(b[8] == SOURCE_CONFIG_LINE.spec_bytes());
    assert(b[10] == BORDER.spec_bytes());
    assert(forall|a: int| 0 <= a < 11 ==> lacks(#[trigger] b[a], 10u8));
    lemma_lacks_newline_each(b);
    let last_start = start_marker().len() - 1;
    lemma_missing_byte(BORDER.spec_bytes(), start_marker(), last_start);
    lemma_missing_byte(end_line, start_marker(), last_start);
    lemma_ends_with(COMMENT_PREFIX.spec_bytes(), start_marker());
    lemma_ends_with(COMMENT_PREFIX.spec_bytes(), end_marker());
    lemma_missing_byte(start_line, end_marker(), 0);
    lemma_missing_byte(COMMENT_ADDED.spec_bytes(), end_marker(), 0);
    lemma_missing_byte(COMMENT_PROPERLY.spec_bytes(), end_marker(), 0);
    lemma_missing_byte(COMMENT_WARNING.spec_bytes(), end_marker(), 0);
    lemma_missing_byte(COMMENT_PATH.spec_bytes(), end_marker(), 0);
    lemma_missing_byte(COMMENT_FUNCTION.spec_bytes(), end_marker(), 0);
    lemma_missing_byte(SOURCE_CONFIG_LINE.spec_bytes(), end_marker(), 0);
    lemma_missing_byte(COMMENT_ADDED.spec_bytes(), start_marker(), last_start);
    lemma_missing_byte(COMMENT_PROPERLY.spec_bytes(), start_marker(), last_start);
    lemma_missing_byte(COMMENT_WARNING.spec_bytes(), start_marker(), last_start);
    lemma_missing_byte(COMMENT_PATH.spec_bytes(), start_marker(), last_start);
    lemma_missing_byte(COMMENT_FUNCTION.spec_bytes(), start_marker(), last_start);
    lemma_missing_byte(SOURCE_CONFIG_LINE.spec_bytes(), start_marker(), last_start);
    assert(!contains(b[0], start_marker()));
    assert(!contains(b[2], start_marker()));
    assert(!contains(b[3], start_marker()));
    assert(!contains(b[4], start_marker()));
    assert(!contains(b[5], start_marker()));
    assert(!contains(b[6], start_marker()));
    assert(!contains(b[8], start_marker()));
    assert(!contains(b[9], start_marker()));
    assert(!contains(b[10], start_marker()));
    assert(!contains(b[1], end_marker()));
    assert(!contains(b[2], end_marker()));
    assert(!contains(b[3], end_marker()));
    assert(!contains(b[4], end_marker()));
    assert(!contains(b[5], end_marker()));
    assert(!contains(b[6], end_marker()));
    assert(!contains(b[7], end_marker()));
    assert(!contains(b[8], end_marker()));
}

/// Setting up a file that was already set up gives the same file back, with
/// one block, as long as the configuration home is a single line that does
/// not spell the end marker and no line kept from the old file holds the
/// start marker.
pub proof fn lemma_configure_twice(content: Seq<u8>, config_home: Seq<u8>)
    requires
        lacks(config_home, 10u8),
        !contains(export_home_line(config_home), end_marker()),
        forall|k: int|
            0 <= k < without_block(content).len() ==> !contains(
                #[trigger] without_block(content)[k],
                start_marker(),
            ),
    ensures
        configured(configured(content, config_home), config_home) == configured(content, config_home),
{
    let r = without_block(content);
    let b = block_lines(config_home);
    let ls = r + b;
    lemma_block_shape(config_home);
    lemma_lines_from_no_newlines(content, 0, 0);
    lemma_kept_no_newlines(lines_of(content), 0, true);
    assert forall|a: int, j: int| 0 <= a < ls.len() && 0 <= j < ls[a].len() implies ls[a][j] != 10u8 by {
        if a < r.len() {
            assert(ls[a] == r[a]);
        } else {
            assert(ls[a] == b[a - r.len()]);
        }
    }
    lemma_lines_of_joined(ls);
    let p = r.len() as int;
    let n = ls.len() as int;
    assert(ls[p] == b[0]);
    assert(ls[p + 1] == b[1]);
    assert(ls[p + 9] == b[9]);
    assert(ls[p + 10] == b[10]);
    assert forall|k: int| 0 <= k < p && k + 1 < n implies !contains(#[trigger] ls[k + 1], start_marker()) by {
        if k + 1 < p {
            assert(ls[k + 1] == r[k + 1]);
        }
    }
    lemma_outside_run(ls, 0, p);
    assert forall|k: int| p + 1 <= k < p + 9 implies !contains(#[trigger] ls[k], end_marker()) by {
        assert(ls[k] == b[k - p]);
    }
    assert(n == p + 11);
    assert(kept(ls, p, true) == kept(ls, p + 1, false));
    lemma_inside_run(ls, p + 1, p + 9);
    assert(kept(ls, p + 9, false) == kept(ls, p + 11, true));
    assert(kept(ls, p + 11, true) == Seq::<Seq<u8>>::empty());
    assert(ls.subrange(0, p) =~= r);
    assert(r + Seq::<Seq<u8>>::empty() =~= r);
    assert(without_block(joined(ls)) == r);
}

/// A file with no block, set up twice, is the file set up once.
pub proof fn lemma_configure_twice_no_block(ls: Seq<Seq<u8>>, config_home: Seq<u8>)
    requires
        no_newlines(ls),
        forall|k: int| 0 <= k < ls.len() ==> !contains(#[trigger] ls[k], start_marker()),
        lacks(config_home, 10u8),
        !contains(export_home_line(config_home), end_marker()),
    ensures
        configured(configured(joined(ls), config_home), config_home) == configured(
            joined(ls),
            config_home,
        ),
{
    lemma_remove_block_no_block(ls);
    lemma_configure_twice(joined(ls), config_home);
}

/// A file with one block, set up twice, is the file set up once.
pub proof fn lemma_configure_twice_one_block(
    before: Seq<Seq<u8>>,
    open_border: Seq<u8>,
    start_line: Seq<u8>,
    body: Seq<Seq<u8>>,
    end_line: Seq<u8>,
    close_border: Seq<u8>,
    after: Seq<Seq<u8>>,
    config_home: Seq<u8>,
)
    requires
        no_newlines(before + seq![open_border, start_line] + body + seq![end_line, close_border] + after),
        forall|k: int| 0 <= k < before.len() ==> !contains(#[trigger] before[k], start_marker()),
        forall|k: int| 0 <= k < body.len() ==> !contains(#[trigger] body[k], end_marker()),
        forall|k: int| 0 <= k < after.len() ==> !contains(#[trigger] after[k], start_marker()),
        !contains(open_border, start_marker()),
        contains(start_line, start_marker()),
        !contains(start_line, end_marker()),
        contains(end_line, end_marker()),
        lacks(config_home, 10u8),
        !contains(export_home_line(config_home), end_marker()),
    ensures
        ({
            let content = joined(
                before + seq![open_border, start_line] + body + seq![end_line, close_border] + after,
            );
            configured(configured(content, config_home), config_home) == configured(content, config_home)
        }),
{
    lemma_remove_block_one_block(before, open_border, start_line, body, end_line, close_border, after);
    let r = before + after;
    assert forall|k: int| 0 <= k < r.len() implies !contains(#[trigger] r[k], start_marker()) by {
        if k >= before.len() {
            assert(r[k] == after[k - before.len()]);
        }
    }
    lemma_configure_twice(
        joined(before + seq![open_border, start_line] + body + seq![end_line, close_border] + after),
        config_home,
    );
}

/// After setup the file holds exactly one block: of its lines, only the
/// one right after the kept lines and the opening border holds the start
/// marker, as long as no kept line holds it and the configuration home is a
/// single line that spells neither marker.
pub proof fn lemma_configure_one_block(content: Seq<u8>, config_home: Seq<u8>)
    requires
        lacks(config_home, 10u8),
        !contains(export_home_line(config_home), end_marker()),
        !contains(export_home_line(config_home), start_marker()),
        forall|k: int|
            0 <= k < without_block(content).len() ==> !contains(
                #[trigger] without_block(content)[k],
                start_marker(),
            ),
    ensures
        forall|k: int|
            0 <= k < lines_of(configured(content, config_home)).len() ==> (contains(
                #[trigger] lines_of(configured(content, config_home))[k],
                start_marker(),
            ) <==> k == without_block(content).len() + 1),
{
    let r = without_block(content);
    let b = block_lines(config_home);
    let ls = r + b;
    lemma_block_shape(config_home);
    lemma_lines_from_no_newlines(content, 0, 0);
    lemma_kept_no_newlines(lines_of(content), 0, true);
    assert forall|a: int, j: int| 0 <= a < ls.len() && 0 <= j < ls[a].len() implies ls[a][j] != 10u8 by {
        if a < r.len() {
            assert(ls[a] == r[a]);
        } else {
            assert(ls[a] == b[a - r.len()]);
        }
    }
    lemma_lines_of_joined(ls);
    assert forall|k: int| 0 <= k < ls.len() implies (contains(#[trigger] ls[k], start_marker()) <==> k
        == r.len() + 1) by {
        if k < r.len() {
            assert(ls[k] == r[k]);
        } else {
            assert(ls[k] == b[k - r.len()]);
            if k - r.len() == 7 {
                assert(b[7] == export_home_line(config_home));
            }
        }
    }
}

} // verus!
