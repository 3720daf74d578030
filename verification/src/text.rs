//! Character-sequence operations shared by the index, the resolver and the
//! editors. Each operation is stated as a spec function over `Seq<char>` and
//! implemented by an executable function over `Vec<char>` that is proved to
//! compute it.
use vstd::prelude::*;

verus! {

// ---------------------------------------------------------------------------
// Specifications
// ---------------------------------------------------------------------------
/// `s` begins with `p`.
pub open spec fn starts_with(s: Seq<char>, p: Seq<char>) -> bool {
    p.len() <= s.len() && s.subrange(0, p.len() as int) == p
}

/// `s` ends with `p`.
pub open spec fn ends_with(s: Seq<char>, p: Seq<char>) -> bool {
    p.len() <= s.len() && s.subrange(s.len() - p.len(), s.len() as int) == p
}

/// Repeatedly removes the prefix `p` from `s` (nothing is removed when `p` is empty).
pub open spec fn trim_start_matches(s: Seq<char>, p: Seq<char>) -> Seq<char>
    decreases s.len(),
{
    if p.len() > 0 && starts_with(s, p) {
        trim_start_matches(s.skip(p.len() as int), p)
    } else {
        s
    }
}

/// Repeatedly removes the suffix `p` from `s` (nothing is removed when `p` is empty).
pub open spec fn trim_end_matches(s: Seq<char>, p: Seq<char>) -> Seq<char>
    decreases s.len(),
{
    if p.len() > 0 && ends_with(s, p) {
        trim_end_matches(s.subrange(0, s.len() - p.len()), p)
    } else {
        s
    }
}

/// Removes every leading and trailing occurrence of the character `c`.
pub open spec fn trim_char(s: Seq<char>, c: char) -> Seq<char> {
    trim_end_matches(trim_start_matches(s, seq![c]), seq![c])
}

/// Replaces the non-overlapping occurrences of `pat` in `s`, scanned from the
/// left, by `with`.
pub open spec fn replace(s: Seq<char>, pat: Seq<char>, with: Seq<char>) -> Seq<char>
    decreases s.len(),
{
    if s.len() == 0 {
        s
    } else if pat.len() > 0 && starts_with(s, pat) {
        with + replace(s.skip(pat.len() as int), pat, with)
    } else {
        seq![s[0]] + replace(s.skip(1), pat, with)
    }
}

/// The part of `s` after the rightmost occurrence of `sep` (all of `s` when
/// `sep` does not occur).
pub open spec fn last_segment(s: Seq<char>, sep: Seq<char>) -> Seq<char>
    decreases s.len(),
{
    if sep.len() == 0 || s.len() < sep.len() {
        s
    } else if ends_with(s, sep) {
        Seq::empty()
    } else {
        last_segment(s.drop_last(), sep).push(s.last())
    }
}

/// Unicode `White_Space`, the property that `char::is_whitespace` tests.
pub open spec fn is_whitespace(c: char) -> bool {
    let u = c as u32;
    (0x9 <= u <= 0xd) || u == 0x20 || u == 0x85 || u == 0xa0 || u == 0x1680 || (0x2000 <= u
        <= 0x200a) || u == 0x2028 || u == 0x2029 || u == 0x202f || u == 0x205f || u == 0x3000
}

/// Drops leading whitespace.
pub open spec fn trim_start_ws(s: Seq<char>) -> Seq<char>
    decreases s.len(),
{
    if s.len() > 0 && is_whitespace(s[0]) {
        trim_start_ws(s.skip(1))
    } else {
        s
    }
}

/// Drops trailing whitespace.
pub open spec fn trim_end_ws(s: Seq<char>) -> Seq<char>
    decreases s.len(),
{
    if s.len() > 0 && is_whitespace(s.last()) {
        trim_end_ws(s.drop_last())
    } else {
        s
    }
}

/// Drops leading and trailing whitespace (`str::trim`).
pub open spec fn trim_ws(s: Seq<char>) -> Seq<char> {
    trim_end_ws(trim_start_ws(s))
}

/// Length of the longest prefix of `s` that holds no `'\n'`.
pub open spec fn first_newline(s: Seq<char>) -> int
    decreases s.len(),
{
    if s.len() == 0 {
        0
    } else if s[0] == '\n' {
        0
    } else {
        1 + first_newline(s.skip(1))
    }
}

pub proof fn lemma_first_newline(s: Seq<char>)
    ensures
        0 <= first_newline(s) <= s.len(),
        first_newline(s) < s.len() ==> s[first_newline(s)] == '\n',
        forall|i: int| 0 <= i < first_newline(s) ==> s[i] != '\n',
    decreases s.len(),
{
    if s.len() > 0 && s[0] != '\n' {
        lemma_first_newline(s.skip(1));
        assert forall|i: int| 0 <= i < first_newline(s) implies s[i] != '\n' by {
            if i > 0 {
                assert(s[i] == s.skip(1)[i - 1]);
            }
        }
    }
}

/// The lines of `s` as `str::lines` yields them: pieces ending in `'\n'`
/// (which is dropped, together with a `'\r'` just before it), then the rest
/// of `s` when it is not empty.
pub open spec fn lines(s: Seq<char>) -> Seq<Seq<char>>
    decreases s.len(),
{
    if s.len() == 0 {
        Seq::empty()
    } else {
        let k = first_newline(s);
        proof {
            lemma_first_newline(s);
        }
        if k < s.len() {
            let piece = s.subrange(0, k);
            let piece = if piece.len() > 0 && piece.last() == '\r' {
                piece.drop_last()
            } else {
                piece
            };
            seq![piece] + lines(s.skip(k + 1))
        } else {
            seq![s]
        }
    }
}

/// `s` holds `c`.
pub open spec fn has_char(s: Seq<char>, c: char) -> bool {
    exists|i: int| 0 <= i < s.len() && s[i] == c
}

/// Lexicographic order on characters by code point, which is the order of
/// `String`'s `Ord` (it compares UTF-8 bytes, and UTF-8 keeps code point order).
pub open spec fn seq_lt(a: Seq<char>, b: Seq<char>) -> bool
    decreases a.len(),
{
    if a.len() == 0 {
        b.len() > 0
    } else if b.len() == 0 {
        false
    } else if a[0] != b[0] {
        a[0] < b[0]
    } else {
        seq_lt(a.skip(1), b.skip(1))
    }
}

pub open spec fn seq_le(a: Seq<char>, b: Seq<char>) -> bool {
    seq_lt(a, b) || a == b
}

// ---------------------------------------------------------------------------
// Lemmas about the order
// ---------------------------------------------------------------------------
pub proof fn lemma_seq_lt_irrefl(a: Seq<char>)
    ensures
        !seq_lt(a, a),
    decreases a.len(),
{
    if a.len() > 0 {
        lemma_seq_lt_irrefl(a.skip(1));
    }
}

pub proof fn lemma_seq_lt_total(a: Seq<char>, b: Seq<char>)
    ensures
        seq_lt(a, b) || seq_lt(b, a) || a == b,
    decreases a.len(),
{
    if a.len() > 0 && b.len() > 0 && a[0] == b[0] {
        lemma_seq_lt_total(a.skip(1), b.skip(1));
        if a.skip(1) == b.skip(1) {
            assert(a =~= seq![a[0]] + a.skip(1));
            assert(b =~= seq![b[0]] + b.skip(1));
        }
    } else if a.len() > 0 && b.len() > 0 {
    } else if a.len() == 0 && b.len() == 0 {
        assert(a =~= b);
    }
}

pub proof fn lemma_seq_lt_asym(a: Seq<char>, b: Seq<char>)
    ensures
        seq_lt(a, b) ==> !seq_lt(b, a),
    decreases a.len(),
{
    if a.len() > 0 && b.len() > 0 && a[0] == b[0] {
        lemma_seq_lt_asym(a.skip(1), b.skip(1));
    }
}

pub proof fn lemma_seq_lt_trans(a: Seq<char>, b: Seq<char>, c: Seq<char>)
    requires
        seq_lt(a, b),
        seq_lt(b, c),
    ensures
        seq_lt(a, c),
    decreases a.len(),
{
    if a.len() > 0 && b.len() > 0 && c.len() > 0 && a[0] == b[0] && b[0] == c[0] {
        lemma_seq_lt_trans(a.skip(1), b.skip(1), c.skip(1));
    }
}

// ---------------------------------------------------------------------------
// Conversions
// ---------------------------------------------------------------------------
/// The characters of `s`, in order.
pub fn chars_of(s: &str) -> (res: Vec<char>)
    ensures
        res@ == s@,
{
    let mut out: Vec<char> = Vec::new();
    for c in it: s.chars()
        invariant
            out@ == it.seq().take(it.index() as int),
            it.seq() == s@,
    {
        out.push(c);
    }
    out
}

/// Collects characters into a `String` (`FromIterator<char>` of std).
#[verifier::external_body]
pub(crate) fn string_from_chars(v: &[char]) -> (res: String)
    ensures
        res@ == v@,
{
    v.iter().collect()
}

/// An owned copy of `s`.
pub fn owned(s: &str) -> (res: String)
    ensures
        res@ == s@,
{
    s.to_owned()
}

/// The concatenation of `a` and `b`.
pub fn concat(a: &str, b: &str) -> (res: String)
    ensures
        res@ == a@ + b@,
{
    let mut r = a.to_owned();
    r.append(b);
    r
}

// ---------------------------------------------------------------------------
// Executable operations
// ---------------------------------------------------------------------------
/// Whether `a` and `b` hold the same characters.
pub fn str_eq(a: &str, b: &str) -> (res: bool)
    ensures
        res == (a@ == b@),
{
    let ca = chars_of(a);
    let cb = chars_of(b);
    slice_eq(ca.as_slice(), cb.as_slice())
}

/// Whether `a` and `b` hold the same characters.
pub fn slice_eq(a: &[char], b: &[char]) -> (res: bool)
    ensures
        res == (a@ == b@),
{
    if a.len() != b.len() {
        return false;
    }
    let mut i: usize = 0;
    while i < a.len()
        invariant
            a@.len() == b@.len(),
            i <= a@.len(),
            a@.subrange(0, i as int) == b@.subrange(0, i as int),
        decreases a@.len() - i,
    {
        if a[i] != b[i] {
            assert(a@[i as int] != b@[i as int]);
            return false;
        }
        assert(a@.subrange(0, i + 1) =~= a@.subrange(0, i as int).push(a@[i as int]));
        assert(b@.subrange(0, i + 1) =~= b@.subrange(0, i as int).push(b@[i as int]));
        i = i + 1;
    }
    assert(a@ =~= a@.subrange(0, i as int));
    assert(b@ =~= b@.subrange(0, i as int));
    true
}

/// Whether `s[at..]` begins with `p`.
pub fn starts_with_at(s: &[char], at: usize, p: &[char]) -> (res: bool)
    requires
        at <= s@.len(),
    ensures
        res == starts_with(s@.skip(at as int), p@),
{
    if p.len() > s.len() - at {
        return false;
    }
    let mut i: usize = 0;
    while i < p.len()
        invariant
            at + p.len() <= s.len(),
            i <= p@.len(),
            forall|j: int| 0 <= j < i ==> s@[at + j] == p@[j],
        decreases p@.len() - i,
    {
        if s[at + i] != p[i] {
            assert(s@.skip(at as int).subrange(0, p@.len() as int)[i as int] != p@[i as int]);
            return false;
        }
        i = i + 1;
    }
    assert(s@.skip(at as int).subrange(0, p@.len() as int) =~= p@);
    true
}

/// Whether `s` begins with `p`.
pub fn slice_starts_with(s: &[char], p: &[char]) -> (res: bool)
    ensures
        res == starts_with(s@, p@),
{
    assert(s@.skip(0) =~= s@);
    starts_with_at(s, 0, p)
}

/// Whether `s[..end]` ends with `p`.
pub fn ends_with_before(s: &[char], end: usize, p: &[char]) -> (res: bool)
    requires
        end <= s@.len(),
    ensures
        res == ends_with(s@.subrange(0, end as int), p@),
{
    if p.len() > end {
        return false;
    }
    let start = end - p.len();
    let r = starts_with_at(s, start, p);
    assert(s@.skip(start as int).subrange(0, p@.len() as int) =~= s@.subrange(
        0,
        end as int,
    ).subrange(end - p@.len(), end as int));
    r
}

/// Whether `s` ends with `p`.
pub fn slice_ends_with(s: &[char], p: &[char]) -> (res: bool)
    ensures
        res == ends_with(s@, p@),
{
    assert(s@.subrange(0, s@.len() as int) =~= s@);
    ends_with_before(s, s.len(), p)
}

/// Copies `s[from..to]`.
pub fn copy_range(s: &[char], from: usize, to: usize) -> (res: Vec<char>)
    requires
        from <= to <= s@.len(),
    ensures
        res@ == s@.subrange(from as int, to as int),
{
    let mut out: Vec<char> = Vec::new();
    let mut i = from;
    while i < to
        invariant
            from <= i <= to <= s@.len(),
            out@ == s@.subrange(from as int, i as int),
        decreases to - i,
    {
        out.push(s[i]);
        assert(s@.subrange(from as int, i + 1) =~= s@.subrange(from as int, i as int).push(
            s@[i as int],
        ));
        i = i + 1;
    }
    out
}

/// `trim_start_matches`.
pub fn trim_start(s: &[char], p: &[char]) -> (res: Vec<char>)
    ensures
        res@ == trim_start_matches(s@, p@),
{
    if p.len() == 0 {
        return copy_range(s, 0, s.len());
    }
    let mut at: usize = 0;
    assert(s@.skip(0) =~= s@);
    while at <= s.len() && starts_with_at(s, at, p)
        invariant
            at <= s@.len() ==> trim_start_matches(s@, p@) == trim_start_matches(
                s@.skip(at as int),
                p@,
            ),
            at <= s@.len(),
            p@.len() > 0,
        decreases s@.len() - at,
    {
        assert(s@.skip(at as int).skip(p@.len() as int) =~= s@.skip(at + p@.len()));
        at = at + p.len();
    }
    assert(s@.skip(at as int) =~= s@.subrange(at as int, s@.len() as int));
    copy_range(s, at, s.len())
}

/// `trim_end_matches`.
pub fn trim_end(s: &[char], p: &[char]) -> (res: Vec<char>)
    ensures
        res@ == trim_end_matches(s@, p@),
{
    if p.len() == 0 {
        return copy_range(s, 0, s.len());
    }
    let mut end: usize = s.len();
    assert(s@.subrange(0, end as int) =~= s@);
    while ends_with_before(s, end, p)
        invariant
            end <= s@.len(),
            trim_end_matches(s@, p@) == trim_end_matches(s@.subrange(0, end as int), p@),
            p@.len() > 0,
        decreases end,
    {
        assert(s@.subrange(0, end as int).subrange(0, end - p@.len()) =~= s@.subrange(
            0,
            end - p@.len(),
        ));
        end = end - p.len();
    }
    copy_range(s, 0, end)
}

/// `trim_matches` with a single character.
pub fn trim_matches_char(s: &[char], c: char) -> (res: Vec<char>)
    ensures
        res@ == trim_char(s@, c),
{
    let p = vec![c];
    assert(p@ =~= seq![c]);
    let a = trim_start(s, p.as_slice());
    trim_end(a.as_slice(), p.as_slice())
}

/// `str::replace`.
pub fn replace_all(s: &[char], pat: &[char], with: &[char]) -> (res: Vec<char>)
    requires
        pat@.len() > 0,
    ensures
        res@ == replace(s@, pat@, with@),
{
    let mut out: Vec<char> = Vec::new();
    let mut at: usize = 0;
    assert(s@.skip(0) =~= s@);
    assert(Seq::<char>::empty() + replace(s@, pat@, with@) =~= replace(s@, pat@, with@));
    while at < s.len()
        invariant
            at <= s@.len(),
            pat@.len() > 0,
            out@ + replace(s@.skip(at as int), pat@, with@) == replace(s@, pat@, with@),
        decreases s@.len() - at,
    {
        let ghost rest = s@.skip(at as int);
        if starts_with_at(s, at, pat) {
            let ghost before = out@;
            let mut k: usize = 0;
            while k < with.len()
                invariant
                    k <= with@.len(),
                    out@ == before + with@.subrange(0, k as int),
                decreases with@.len() - k,
            {
                out.push(with[k]);
                assert(with@.subrange(0, k + 1) =~= with@.subrange(0, k as int).push(with@[k as int]));
                k = k + 1;
            }
            assert(with@.subrange(0, k as int) =~= with@);
            assert(rest.skip(pat@.len() as int) =~= s@.skip(at + pat@.len()));
            assert(out@ + replace(s@.skip(at + pat@.len()), pat@, with@) =~= before + replace(rest, pat@, with@));
            at = at + pat.len();
        } else {
            let ghost before = out@;
            out.push(s[at]);
            assert(rest.skip(1) =~= s@.skip(at + 1));
            assert(out@ + replace(s@.skip(at + 1), pat@, with@) =~= before + replace(rest, pat@, with@));
            at = at + 1;
        }
    }
    assert(replace(s@.skip(at as int), pat@, with@) =~= Seq::<char>::empty());
    assert(out@ + Seq::<char>::empty() =~= out@);
    out
}

/// The part of `s` after the rightmost occurrence of `sep`
/// (`s.rsplit(sep).next()`, which always yields a piece).
pub fn last_segment_of(s: &[char], sep: &[char]) -> (res: Vec<char>)
    ensures
        res@ == last_segment(s@, sep@),
{
    if sep.len() == 0 {
        return copy_range(s, 0, s.len());
    }
    let mut i: usize = s.len();
    assert(s@.subrange(0, i as int) =~= s@);
    assert(s@ =~= s@.subrange(0, i as int) + s@.subrange(i as int, s@.len() as int));
    while i >= sep.len() && !ends_with_before(s, i, sep)
        invariant
            i <= s@.len(),
            sep@.len() > 0,
            last_segment(s@, sep@) == last_segment(s@.subrange(0, i as int), sep@)
                + s@.subrange(i as int, s@.len() as int),
        decreases i,
    {
        let ghost pre = s@.subrange(0, i as int);
        assert(pre.drop_last() =~= s@.subrange(0, i - 1));
        assert(s@.subrange(i - 1, s@.len() as int) =~= seq![pre.last()] + s@.subrange(
            i as int,
            s@.len() as int,
        ));
        assert(last_segment(pre, sep@) == last_segment(pre.drop_last(), sep@).push(pre.last()));
        assert(last_segment(pre.drop_last(), sep@).push(pre.last()) + s@.subrange(
            i as int,
            s@.len() as int,
        ) =~= last_segment(pre.drop_last(), sep@) + s@.subrange(i - 1, s@.len() as int));
        i = i - 1;
    }
    if i < sep.len() {
        assert(last_segment(s@.subrange(0, i as int), sep@) == s@.subrange(0, i as int));
        assert(s@.subrange(0, i as int) + s@.subrange(i as int, s@.len() as int) =~= s@);
        copy_range(s, 0, s.len())
    } else {
        assert(last_segment(s@.subrange(0, i as int), sep@) =~= Seq::<char>::empty());
        assert(Seq::<char>::empty() + s@.subrange(i as int, s@.len() as int) =~= s@.subrange(
            i as int,
            s@.len() as int,
        ));
        copy_range(s, i, s.len())
    }
}

/// Whether `s` holds the character `c`.
pub fn has_char_in(s: &[char], c: char) -> (res: bool)
    ensures
        res == has_char(s@, c),
{
    let mut i: usize = 0;
    while i < s.len()
        invariant
            i <= s@.len(),
            forall|j: int| 0 <= j < i ==> s@[j] != c,
        decreases s@.len() - i,
    {
        if s[i] == c {
            return true;
        }
        i = i + 1;
    }
    false
}

/// `char::is_whitespace`.
pub fn char_is_whitespace(c: char) -> (res: bool)
    ensures
        res == is_whitespace(c),
{
    let u = c as u32;
    (0x9 <= u && u <= 0xd) || u == 0x20 || u == 0x85 || u == 0xa0 || u == 0x1680 || (0x2000 <= u
        && u <= 0x200a) || u == 0x2028 || u == 0x2029 || u == 0x202f || u == 0x205f || u == 0x3000
}

/// `str::trim`.
pub fn trim_whitespace(s: &[char]) -> (res: Vec<char>)
    ensures
        res@ == trim_ws(s@),
{
    let mut a: usize = 0;
    assert(s@.skip(0) =~= s@);
    while a < s.len() && char_is_whitespace(s[a])
        invariant
            a <= s@.len(),
            trim_start_ws(s@) == trim_start_ws(s@.skip(a as int)),
        decreases s@.len() - a,
    {
        assert(s@.skip(a as int).skip(1) =~= s@.skip(a + 1));
        a = a + 1;
    }
    let ghost t = s@.skip(a as int);
    assert(trim_start_ws(t) == t);
    let mut b: usize = s.len();
    assert(t =~= s@.subrange(a as int, b as int));
    while b > a && char_is_whitespace(s[b - 1])
        invariant
            a <= b <= s@.len(),
            trim_ws(s@) == trim_end_ws(s@.subrange(a as int, b as int)),
        decreases b,
    {
        assert(s@.subrange(a as int, b as int).drop_last() =~= s@.subrange(a as int, b - 1));
        b = b - 1;
    }
    copy_range(s, a, b)
}

/// `first_newline` is the index of the first `'\n'`, or the length.
pub proof fn lemma_first_newline_at(s: Seq<char>, j: int)
    requires
        0 <= j <= s.len(),
        j < s.len() ==> s[j] == '\n',
        forall|i: int| 0 <= i < j ==> s[i] != '\n',
    ensures
        first_newline(s) == j,
{
    lemma_first_newline(s);
}

/// The line of `s` with index `n` (`s.lines().nth(n).unwrap_or("")`).
pub open spec fn nth_line(s: Seq<char>, n: int) -> Seq<char> {
    if 0 <= n < lines(s).len() {
        lines(s)[n]
    } else {
        Seq::empty()
    }
}

/// Position just after the first line of `s[pos..]`, together with that line.
pub(crate) fn next_line(s: &[char], pos: usize) -> (res: (usize, Vec<char>))
    requires
        pos < s@.len(),
    ensures
        pos < res.0 <= s@.len(),
        lines(s@.skip(pos as int)) == seq![res.1@] + lines(s@.skip(res.0 as int)),
{
    let ghost t = s@.skip(pos as int);
    let mut j: usize = pos;
    while j < s.len() && s[j] != '\n'
        invariant
            pos <= j <= s@.len(),
            forall|i: int| pos <= i < j ==> s@[i] != '\n',
        decreases s@.len() - j,
    {
        j = j + 1;
    }
    proof {
        lemma_first_newline_at(t, j - pos);
    }
    if j < s.len() {
        let mut piece = copy_range(s, pos, j);
        assert(piece@ =~= t.subrange(0, j - pos));
        if piece.len() > 0 && piece[piece.len() - 1] == '\r' {
            piece.pop();
        }
        assert(t.skip(j - pos + 1) =~= s@.skip(j + 1));
        (j + 1, piece)
    } else {
        assert(s@.skip(j as int) =~= Seq::<char>::empty());
        assert(lines(s@.skip(j as int)) =~= Seq::<Seq<char>>::empty());
        let piece = copy_range(s, pos, j);
        assert(piece@ =~= t);
        assert(seq![piece@] + Seq::<Seq<char>>::empty() =~= seq![piece@]);
        (j, piece)
    }
}

/// `s.lines().nth(n).unwrap_or("")`.
pub fn line_of(s: &[char], n: usize) -> (res: Vec<char>)
    ensures
        res@ == nth_line(s@, n as int),
{
    let mut pos: usize = 0;
    let mut k: usize = 0;
    assert(s@.skip(0) =~= s@);
    while pos < s.len()
        invariant
            pos <= s@.len(),
            k <= n,
            lines(s@).len() == k + lines(s@.skip(pos as int)).len(),
            forall|i: int|
                0 <= i < lines(s@.skip(pos as int)).len() ==> #[trigger] lines(s@)[k + i] == lines(
                    s@.skip(pos as int),
                )[i],
        decreases s@.len() - pos,
    {
        let (next, line) = next_line(s, pos);
        if k == n {
            proof {
                let rest = lines(s@.skip(pos as int));
                assert(rest[0] == line@);
                assert(lines(s@)[k + 0] == rest[0]);
            }
            return line;
        }
        proof {
            let rest = lines(s@.skip(pos as int));
            let after = lines(s@.skip(next as int));
            assert forall|i: int| 0 <= i < after.len() implies #[trigger] lines(s@)[k + 1 + i]
                == after[i] by {
                assert(lines(s@)[k + (i + 1)] == rest[i + 1]);
            }
        }
        pos = next;
        k = k + 1;
    }
    assert(s@.skip(pos as int) =~= Seq::<char>::empty());
    Vec::new()
}

/// `seq_lt` as a computation.
pub fn chars_less(a: &[char], b: &[char]) -> (res: bool)
    ensures
        res == seq_lt(a@, b@),
{
    let mut i: usize = 0;
    assert(a@.skip(0) =~= a@);
    assert(b@.skip(0) =~= b@);
    while i < a.len() && i < b.len() && a[i] == b[i]
        invariant
            i <= a@.len(),
            i <= b@.len(),
            seq_lt(a@, b@) == seq_lt(a@.skip(i as int), b@.skip(i as int)),
        decreases a@.len() - i,
    {
        assert(a@.skip(i as int).skip(1) =~= a@.skip(i + 1));
        assert(b@.skip(i as int).skip(1) =~= b@.skip(i + 1));
        i = i + 1;
    }
    if i == a.len() {
        i < b.len()
    } else if i == b.len() {
        false
    } else {
        a[i] < b[i]
    }
}

/// `str::to_lowercase`: the Unicode lowercase mapping of every character.
pub uninterp spec fn lowercase(s: Seq<char>) -> Seq<char>;

/// `a` sorts before `b`, character by character.
pub fn str_less(a: &str, b: &str) -> (res: bool)
    ensures
        res == seq_lt(a@, b@),
{
    let x = chars_of(a);
    let y = chars_of(b);
    chars_less(x.as_slice(), y.as_slice())
}

/// Calls `str::to_lowercase`; the result is a function of `s` alone.
#[verifier::external_body]
pub(crate) fn to_lowercase(s: &str) -> (res: String)
    ensures
        res@ == lowercase(s@),
{
    s.to_lowercase()
}

// ---------------------------------------------------------------------------
// Paths (Unix separators, as `std::path::Path` reads them on Linux and macOS)
// ---------------------------------------------------------------------------
/// Index of the last `c` in `s`, or -1.
pub open spec fn last_index_of(s: Seq<char>, c: char) -> int
    decreases s.len(),
{
    if s.len() == 0 {
        -1
    } else if s.last() == c {
        s.len() - 1
    } else {
        last_index_of(s.drop_last(), c)
    }
}

pub proof fn lemma_last_index_of(s: Seq<char>, c: char)
    ensures
        -1 <= last_index_of(s, c) < s.len(),
        last_index_of(s, c) >= 0 ==> s[last_index_of(s, c)] == c,
        forall|i: int| last_index_of(s, c) < i < s.len() ==> s[i] != c,
    decreases s.len(),
{
    if s.len() > 0 && s.last() != c {
        lemma_last_index_of(s.drop_last(), c);
        assert forall|i: int| last_index_of(s, c) < i < s.len() implies s[i] != c by {
            if i < s.len() - 1 {
                assert(s[i] == s.drop_last()[i]);
            }
        }
    }
}

/// The last path component that is neither empty nor `.` (separators are
/// `/`; repeated separators and `.` components are skipped, as
/// `Path::components` does).
pub open spec fn last_component(p: Seq<char>) -> Option<Seq<char>>
    decreases p.len(),
{
    let k = last_index_of(p, '/');
    proof {
        lemma_last_index_of(p, '/');
    }
    let piece = p.subrange(k + 1, p.len() as int);
    if piece.len() > 0 && piece != "."@ {
        Some(piece)
    } else if k < 0 {
        None
    } else {
        last_component(p.subrange(0, k))
    }
}

/// `Path::file_name`: the last component, unless it is `..`.
pub open spec fn file_name(p: Seq<char>) -> Option<Seq<char>> {
    match last_component(p) {
        Some(c) => if c == ".."@ {
            None
        } else {
            Some(c)
        },
        None => None,
    }
}

/// `Path::file_stem`: the file name without its last `.extension`; a name
/// whose only dot is its first character is kept whole.
pub open spec fn file_stem(p: Seq<char>) -> Option<Seq<char>> {
    match file_name(p) {
        Some(n) => {
            let k = last_index_of(n, '.');
            if k <= 0 {
                Some(n)
            } else {
                Some(n.subrange(0, k))
            }
        },
        None => None,
    }
}

/// `Path::new(p).file_stem().and_then(OsStr::to_str).unwrap_or("")`.
pub open spec fn stem_or_empty(p: Seq<char>) -> Seq<char> {
    match file_stem(p) {
        Some(s) => s,
        None => Seq::empty(),
    }
}

/// Index of the last `c` in `s[..end]`, or `None`.
pub fn last_index_before(s: &[char], end: usize, c: char) -> (res: Option<usize>)
    requires
        end <= s@.len(),
    ensures
        res is None ==> last_index_of(s@.subrange(0, end as int), c) == -1,
        res matches Some(k) ==> last_index_of(s@.subrange(0, end as int), c) == k && k < end,
{
    let mut i = end;
    while i > 0 && s[i - 1] != c
        invariant
            i <= end <= s@.len(),
            last_index_of(s@.subrange(0, end as int), c) == last_index_of(
                s@.subrange(0, i as int),
                c,
            ),
        decreases i,
    {
        assert(s@.subrange(0, i as int).drop_last() =~= s@.subrange(0, i - 1));
        i = i - 1;
    }
    if i == 0 {
        None
    } else {
        Some(i - 1)
    }
}

/// `file_name`, computed.
pub fn file_name_of(p: &[char]) -> (res: Option<Vec<char>>)
    ensures
        match res {
            Some(n) => file_name(p@) == Some(n@),
            None => file_name(p@) is None,
        },
{
    let mut end = p.len();
    assert(p@.subrange(0, end as int) =~= p@);
    let mut name: Option<Vec<char>> = None;
    loop
        invariant_except_break
            end <= p@.len(),
            name is None,
            last_component(p@) == last_component(p@.subrange(0, end as int)),
        ensures
            match name {
                Some(n) => last_component(p@) == Some(n@),
                None => last_component(p@) is None,
            },
        decreases end,
    {
        let ghost q = p@.subrange(0, end as int);
        let k = last_index_before(p, end, '/');
        let start = match k {
            Some(k) => k + 1,
            None => 0,
        };
        proof {
            lemma_last_index_of(q, '/');
        }
        let piece = copy_range(p, start, end);
        assert(piece@ =~= q.subrange(last_index_of(q, '/') + 1, q.len() as int));
        let dot = chars_of(".");
        proof {
            reveal_strlit(".");
        }
        if piece.len() > 0 && !slice_eq(piece.as_slice(), dot.as_slice()) {
            name = Some(piece);
            break ;
        }
        match k {
            None => {
                assert(last_index_of(q, '/') == -1);
                assert(piece@.len() == 0 || piece@ == "."@);
                assert(last_component(q) is None);
                break ;
            },
            Some(k) => {
                assert(q.subrange(0, k as int) =~= p@.subrange(0, k as int));
                end = k;
            },
        }
    }
    match name {
        None => None,
        Some(n) => {
            let dd = chars_of("..");
            proof {
                reveal_strlit("..");
            }
            if slice_eq(n.as_slice(), dd.as_slice()) {
                None
            } else {
                Some(n)
            }
        },
    }
}

/// `stem_or_empty`, computed.
pub fn file_stem_or_empty(p: &[char]) -> (res: Vec<char>)
    ensures
        res@ == stem_or_empty(p@),
{
    match file_name_of(p) {
        None => Vec::new(),
        Some(n) => {
            assert(n@.subrange(0, n@.len() as int) =~= n@);
            match last_index_before(n.as_slice(), n.len(), '.') {
                None => n,
                Some(k) => if k == 0 {
                    n
                } else {
                    copy_range(n.as_slice(), 0, k)
                },
            }
        },
    }
}

/// The characters of `a` followed by those of `b`.
pub fn join(a: &[char], b: &[char]) -> (res: Vec<char>)
    ensures
        res@ == a@ + b@,
{
    let mut out = copy_range(a, 0, a.len());
    assert(a@.subrange(0, a@.len() as int) =~= a@);
    let mut i: usize = 0;
    while i < b.len()
        invariant
            i <= b@.len(),
            out@ == a@ + b@.subrange(0, i as int),
        decreases b@.len() - i,
    {
        out.push(b[i]);
        assert(b@.subrange(0, i + 1) =~= b@.subrange(0, i as int).push(b@[i as int]));
        i = i + 1;
    }
    assert(b@.subrange(0, i as int) =~= b@);
    out
}

} // verus!
