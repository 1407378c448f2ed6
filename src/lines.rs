//! Byte text seen as a sequence of lines.
//!
//! A line is a run of bytes without a newline (`0x0A`). Carriage returns are
//! kept as ordinary bytes, so a file's content survives a split and a join.

use vstd::prelude::*;

verus! {

/// Each line of `ls` followed by a newline byte, in order.
pub open spec fn joined(ls: Seq<Seq<u8>>) -> Seq<u8>
    decreases ls.len(),
{
    if ls.len() == 0 {
        Seq::empty()
    } else {
        ls[0] + seq![10u8] + joined(ls.drop_first())
    }
}

/// Joining two runs of lines is joining each and concatenating.
pub proof fn lemma_joined_concat(a: Seq<Seq<u8>>, b: Seq<Seq<u8>>)
    ensures
        joined(a + b) == joined(a) + joined(b),
    decreases a.len(),
{
    if a.len() == 0 {
        assert(a + b =~= b);
        assert(joined(a) + joined(b) =~= joined(b));
    } else {
        assert((a + b).drop_first() =~= a.drop_first() + b);
        lemma_joined_concat(a.drop_first(), b);
        assert(joined(a + b) =~= joined(a) + joined(b));
    }
}

/// Joining one more line appends it and a newline.
pub proof fn lemma_joined_push(a: Seq<Seq<u8>>, l: Seq<u8>)
    ensures
        joined(a.push(l)) == joined(a) + l + seq![10u8],
{
    lemma_joined_concat(a, seq![l]);
    assert(a.push(l) =~= a + seq![l]);
    assert(seq![l].drop_first() =~= Seq::<Seq<u8>>::empty());
    assert(joined(seq![l].drop_first()) =~= Seq::<u8>::empty());
    assert(joined(seq![l]) =~= l + seq![10u8] + Seq::<u8>::empty());
    assert(joined(a) + (l + seq![10u8]) =~= joined(a) + l + seq![10u8]);
}

/// Splitting a tail that follows `p` does not depend on `p`.
proof fn lemma_lines_from_shift(p: Seq<u8>, q: Seq<u8>, a: int, b: int)
    requires
        0 <= a <= b <= q.len(),
    ensures
        lines_from(p + q, p.len() as int + a, p.len() as int + b) == lines_from(q, a, b),
    decreases q.len() - b,
{
    let s = p + q;
    if b < q.len() {
        assert(s[p.len() + b] == q[b]);
        assert(s.subrange(p.len() + a, p.len() + b) =~= q.subrange(a, b));
        if q[b] == 10u8 {
            lemma_lines_from_shift(p, q, b + 1, b + 1);
        } else {
            lemma_lines_from_shift(p, q, a, b + 1);
        }
    } else {
        assert(s.subrange(p.len() + a, s.len() as int) =~= q.subrange(a, q.len() as int));
    }
}

/// Splitting runs through a line without newlines up to the newline after it.
proof fn lemma_lines_from_line(l: Seq<u8>, q: Seq<u8>, b: int)
    requires
        0 <= b <= l.len(),
        forall|j: int| 0 <= j < l.len() ==> l[j] != 10u8,
    ensures
        lines_from(l + seq![10u8] + q, 0, b) == seq![l] + lines_from(
            l + seq![10u8] + q,
            l.len() + 1 as int,
            l.len() + 1 as int,
        ),
    decreases l.len() - b,
{
    let s = l + seq![10u8] + q;
    if b < l.len() {
        assert(s[b] == l[b]);
        lemma_lines_from_line(l, q, b + 1);
    } else {
        assert(s[b] == 10u8);
        assert(s.subrange(0, b) =~= l);
    }
}

/// Splitting what was joined from lines without newlines gives those lines back.
pub proof fn lemma_lines_of_joined(ls: Seq<Seq<u8>>)
    requires
        no_newlines(ls),
    ensures
        lines_of(joined(ls)) == ls,
    decreases ls.len(),
{
    if ls.len() == 0 {
    } else {
        let l = ls[0];
        let rest = ls.drop_first();
        assert forall|i: int, j: int| 0 <= i < rest.len() && 0 <= j < rest[i].len() implies rest[i][j]
            != 10u8 by {
            assert(rest[i] == ls[i + 1]);
        }
        lemma_lines_of_joined(rest);
        assert forall|j: int| 0 <= j < l.len() implies l[j] != 10u8 by {
            assert(ls[0][j] != 10u8);
        }
        lemma_lines_from_line(l, joined(rest), 0);
        lemma_lines_from_shift(l + seq![10u8], joined(rest), 0, 0);
        assert(l + seq![10u8] + joined(rest) == joined(ls));
        assert(seq![l] + rest =~= ls);
    }
}

/// No line that splitting yields holds a newline.
pub proof fn lemma_lines_from_no_newlines(s: Seq<u8>, start: int, i: int)
    requires
        0 <= start <= i <= s.len(),
        forall|j: int| start <= j < i ==> s[j] != 10u8,
    ensures
        no_newlines(lines_from(s, start, i)),
    decreases s.len() - i,
{
    if i < s.len() {
        if s[i] == 10u8 {
            lemma_lines_from_no_newlines(s, i + 1, i + 1);
            let head = s.subrange(start, i);
            let tail = lines_from(s, i + 1, i + 1);
            assert forall|a: int, j: int|
                0 <= a < (seq![head] + tail).len() && 0 <= j < (seq![head] + tail)[a].len() implies (
            seq![head] + tail)[a][j] != 10u8 by {
                if a > 0 {
                    assert((seq![head] + tail)[a] == tail[a - 1]);
                } else {
                    assert(head[j] == s[start + j]);
                }
            }
        } else {
            lemma_lines_from_no_newlines(s, start, i + 1);
        }
    } else {
        if start < s.len() {
            let head = s.subrange(start, s.len() as int);
            assert forall|j: int| 0 <= j < head.len() implies head[j] != 10u8 by {
                assert(head[j] == s[start + j]);
            }
        }
    }
}

/// Lines of `s` from position `i` on, where the line under way began at `start`.
pub open spec fn lines_from(s: Seq<u8>, start: int, i: int) -> Seq<Seq<u8>>
    decreases s.len() - i,
{
    if i >= s.len() {
        if start < s.len() {
            seq![s.subrange(start, s.len() as int)]
        } else {
            Seq::empty()
        }
    } else if s[i] == 10u8 {
        seq![s.subrange(start, i)] + lines_from(s, i + 1, i + 1)
    } else {
        lines_from(s, start, i + 1)
    }
}

/// The lines of `s`: split at each newline; a last line without a newline
/// counts, an empty tail after a final newline does not.
pub open spec fn lines_of(s: Seq<u8>) -> Seq<Seq<u8>> {
    lines_from(s, 0, 0)
}

/// `pat` occurs in `line` as a contiguous run of bytes.
#[verifier::opaque]
pub open spec fn contains(line: Seq<u8>, pat: Seq<u8>) -> bool {
    exists|k: int|
        0 <= k && k + pat.len() <= line.len() && #[trigger] line.subrange(k, k + pat.len()) == pat
}

/// No line of `ls` holds a newline byte.
pub open spec fn no_newlines(ls: Seq<Seq<u8>>) -> bool {
    forall|i: int, j: int| 0 <= i < ls.len() && 0 <= j < ls[i].len() ==> ls[i][j] != 10u8
}

/// Appends `line` and a newline to `out`.
pub fn push_line(out: &mut Vec<u8>, line: &[u8])
    ensures
        final(out)@ == old(out)@ + line@ + seq![10u8],
{
    push_bytes(out, line);
    out.push(10u8);
}

/// Appends `b` to `out`.
pub fn push_bytes(out: &mut Vec<u8>, b: &[u8])
    ensures
        final(out)@ == old(out)@ + b@,
{
    let ghost before = out@;
    let mut i: usize = 0;
    while i < b.len()
        invariant
            i <= b@.len(),
            out@ == before + b@.subrange(0, i as int),
        decreases b@.len() - i,
    {
        out.push(b[i]);
        i = i + 1;
        assert(out@ =~= before + b@.subrange(0, i as int));
    }
    assert(b@.subrange(0, b@.len() as int) =~= b@);
}

/// Splits `s` into its lines.
pub fn split_lines(s: &[u8]) -> (r: Vec<Vec<u8>>)
    ensures
        r@.len() == lines_of(s@).len(),
        forall|i: int| 0 <= i < r@.len() ==> #[trigger] r@[i]@ == lines_of(s@)[i],
{
    let mut out: Vec<Vec<u8>> = Vec::new();
    let mut cur: Vec<u8> = Vec::new();
    let ghost mut done: Seq<Seq<u8>> = Seq::empty();
    let mut i: usize = 0;
    while i < s.len()
        invariant
            i <= s@.len(),
            cur@.len() <= i,
            cur@ == s@.subrange(i - cur@.len(), i as int),
            out@.len() == done.len(),
            forall|k: int| 0 <= k < done.len() ==> #[trigger] out@[k]@ == done[k],
            done + lines_from(s@, i - cur@.len(), i as int) == lines_of(s@),
        decreases s@.len() - i,
    {
        let ghost start = i - cur@.len();
        if s[i] == 10u8 {
            proof {
                done = done.push(cur@);
                assert(done.drop_last() + seq![cur@] + lines_from(s@, i + 1, i + 1) =~= done
                    + lines_from(s@, i + 1, i + 1));
            }
            out.push(cur);
            cur = Vec::new();
        } else {
            cur.push(s[i]);
            assert(cur@ =~= s@.subrange(start, i + 1));
        }
        i = i + 1;
    }
    if cur.len() > 0 {
        proof {
            done = done.push(cur@);
        }
        out.push(cur);
    } else {
        assert(done =~= done + Seq::<Seq<u8>>::empty());
    }
    out
}

/// Whether `pat` occurs in `line` at position `k`.
pub fn occurs_at(line: &[u8], pat: &[u8], k: usize) -> (r: bool)
    requires
        k + pat@.len() <= line@.len(),
    ensures
        r == (line@.subrange(k as int, k + pat@.len()) == pat@),
{
    let n: usize = line.len();
    let mut j: usize = 0;
    while j < pat.len()
        invariant
            j <= pat@.len(),
            n == line@.len(),
            k + pat@.len() <= n,
            forall|m: int| 0 <= m < j ==> line@[k + m] == pat@[m],
        decreases pat@.len() - j,
    {
        if line[k + j] != pat[j] {
            assert(line@.subrange(k as int, k + pat@.len())[j as int] != pat@[j as int]);
            return false;
        }
        j = j + 1;
    }
    assert(line@.subrange(k as int, k + pat@.len()) =~= pat@);
    true
}

/// Whether `pat` occurs anywhere in `line`.
pub fn contains_bytes(line: &[u8], pat: &[u8]) -> (r: bool)
    ensures
        r == contains(line@, pat@),
{
    reveal(contains);
    if pat.len() > line.len() {
        return false;
    }
    let last: usize = line.len() - pat.len();
    let mut k: usize = 0;
    while k < last
        invariant
            k <= last,
            last + pat@.len() == line@.len(),
            forall|m: int| 0 <= m < k ==> #[trigger] line@.subrange(m, m + pat@.len()) != pat@,
        decreases last - k,
    {
        if occurs_at(line, pat, k) {
            proof {
                reveal(contains);
            }
            return true;
        }
        k = k + 1;
    }
    occurs_at(line, pat, last)
}

} // verus!
