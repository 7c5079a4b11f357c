//! Character-level scanning of the bulletin text.
//!
//! Everything the decoder reads out of a line — its label token, its
//! whitespace-separated tokens, the two-digit column markers of the hour
//! row, trimmed cells, signed integers — is defined here twice: once as a
//! spec function on `Seq<char>` that states what the value is, and once as
//! an executable function proved to return exactly that value.

use vstd::prelude::*;

verus! {

/// The column grid of the bulletin is built from plain spaces only.
pub open spec fn is_space(c: char) -> bool {
    c == ' '
}

/// The whitespace trimmed from tokens and cells: the ASCII whitespace set.
pub open spec fn is_wspace(c: char) -> bool {
    c == ' ' || c == '\t' || c == '\n' || c == '\r' || c == '\x0b' || c == '\x0c'
}

/// An ASCII decimal digit.
pub open spec fn is_digit(c: char) -> bool {
    '0' <= c && c <= '9'
}

/// The value of an ASCII digit.
pub open spec fn digit_val(c: char) -> int {
    c as int - '0' as int
}

/// The first index at or after `from` whose character satisfies `p`, or
/// `s.len()` if none does.
pub open spec fn scan(s: Seq<char>, from: int, p: spec_fn(char) -> bool) -> int
    decreases s.len() - from
        when 0 <= from <= s.len()
{
    if from >= s.len() {
        s.len() as int
    } else if p(s[from]) {
        from
    } else {
        scan(s, from + 1, p)
    }
}

/// Characterizes [`scan`]: if nothing in `[from, i)` satisfies `p` and `i`
/// is the end or satisfies `p`, then the scan stops at `i`.
pub proof fn lemma_scan(s: Seq<char>, from: int, i: int, p: spec_fn(char) -> bool)
    requires
        0 <= from <= i <= s.len(),
        forall|k: int| from <= k < i ==> !p(s[k]),
        i < s.len() ==> p(s[i]),
    ensures
        scan(s, from, p) == i,
    decreases i - from,
{
    if from < i {
        lemma_scan(s, from + 1, i, p);
    }
}

/// The scan result always lies between `from` and the end of the sequence.
pub proof fn lemma_scan_range(s: Seq<char>, from: int, p: spec_fn(char) -> bool)
    requires
        0 <= from <= s.len(),
    ensures
        from <= scan(s, from, p) <= s.len(),
    decreases s.len() - from,
{
    if from < s.len() && !p(s[from]) {
        lemma_scan_range(s, from + 1, p);
    }
}

/// Drops characters satisfying `p` from the back of the range `[lo, hi)`:
/// the smallest `a` such that everything in `[a, hi)` satisfies `p` and
/// either `a == lo` or `s[a - 1]` does not.
pub open spec fn scan_back(s: Seq<char>, lo: int, hi: int, p: spec_fn(char) -> bool) -> int
    decreases hi - lo
        when 0 <= lo <= hi <= s.len()
{
    if hi <= lo {
        lo
    } else if p(s[hi - 1]) {
        scan_back(s, lo, hi - 1, p)
    } else {
        hi
    }
}

/// Characterizes [`scan_back`] by its stopping point `a`.
pub proof fn lemma_scan_back(s: Seq<char>, lo: int, hi: int, a: int, p: spec_fn(char) -> bool)
    requires
        0 <= lo <= a <= hi <= s.len(),
        forall|k: int| a <= k < hi ==> p(s[k]),
        a > lo ==> !p(s[a - 1]),
    ensures
        scan_back(s, lo, hi, p) == a,
    decreases hi - a,
{
    if a < hi {
        lemma_scan_back(s, lo, hi - 1, a, p);
    }
}

/// The first index `t >= from` such that `s[t]` and `s[t + 1]` are both
/// digits, or `s.len()` if there is no such adjacent pair.
pub open spec fn scan_digit_pair(s: Seq<char>, from: int) -> int
    decreases s.len() - from
        when 0 <= from <= s.len()
{
    if from + 1 >= s.len() {
        s.len() as int
    } else if is_digit(s[from]) && is_digit(s[from + 1]) {
        from
    } else {
        scan_digit_pair(s, from + 1)
    }
}

/// Characterizes [`scan_digit_pair`] by its stopping point.
pub proof fn lemma_scan_digit_pair(s: Seq<char>, from: int, i: int)
    requires
        0 <= from <= i <= s.len(),
        forall|k: int| from <= k < i ==> !(k + 1 < s.len() && is_digit(s[k]) && is_digit(
            #[trigger] s[k + 1],
        )),
        i < s.len() ==> i + 1 < s.len() && is_digit(s[i]) && is_digit(s[i + 1]),
    ensures
        scan_digit_pair(s, from) == i,
    decreases i - from,
{
    if from < i {
        lemma_scan_digit_pair(s, from + 1, i);
    } else if i == s.len() {
    }
}

/// The lines of the raw text: the maximal pieces between newline
/// characters. Text without a newline is a single line; a trailing newline
/// yields a final empty line.
pub open spec fn lines_spec(s: Seq<char>) -> Seq<Seq<char>>
    decreases s.len(),
{
    let i = scan(s, 0, |c: char| c == '\n');
    if 0 <= i < s.len() {
        seq![s.subrange(0, i)] + lines_spec(s.skip(i + 1))
    } else {
        seq![s]
    }
}

/// The raw text always splits into at least one line.
pub proof fn lemma_lines_nonempty(s: Seq<char>)
    ensures
        lines_spec(s).len() >= 1,
{
    let i = scan(s, 0, |c: char| c == '\n');
    if 0 <= i < s.len() {
    }
}

/// One unfolding step of [`lines_spec`]: if the first newline of `s` sits
/// at `i`, the lines of `s` are `s[..i]` followed by the lines of the rest.
pub proof fn lemma_lines_step(s: Seq<char>, i: int)
    requires
        0 <= i <= s.len(),
        forall|k: int| 0 <= k < i ==> s[k] != '\n',
        i < s.len() ==> s[i] == '\n',
    ensures
        i == s.len() ==> lines_spec(s) == seq![s],
        i < s.len() ==> lines_spec(s) == seq![s.subrange(0, i)] + lines_spec(s.skip(i + 1)),
{
    let p = |c: char| c == '\n';
    assert forall|k: int| 0 <= k < i implies !p(s[k]) by {}
    lemma_scan(s, 0, i, p);
}

/// The spans `(start, end)` of the whitespace-separated tokens of `s` at
/// or after position `i`, in order.
pub open spec fn token_spans_from(s: Seq<char>, i: int) -> Seq<(int, int)>
    decreases s.len() - i
        when 0 <= i <= s.len()
{
    let a = scan(s, i, |c: char| !is_wspace(c));
    if !(i <= a && a < s.len()) {
        Seq::<(int, int)>::empty()
    } else {
        let b = scan(s, a, |c: char| is_wspace(c));
        if !(a < b <= s.len()) {
            Seq::<(int, int)>::empty()
        } else {
            seq![(a, b)] + token_spans_from(s, b)
        }
    }
}

/// The spans of all whitespace-separated tokens of `s`.
pub open spec fn token_spans(s: Seq<char>) -> Seq<(int, int)> {
    token_spans_from(s, 0)
}

/// The `n`-th whitespace-separated token of `s`, as a character sequence.
pub open spec fn nth_token_spec(s: Seq<char>, n: int) -> Seq<char> {
    let sp = token_spans(s);
    s.subrange(sp[n].0, sp[n].1)
}

/// Where a line's label token starts: after the leading run of spaces.
pub open spec fn label_start(s: Seq<char>) -> int {
    scan(s, 0, |c: char| !is_space(c))
}

/// Where a line's label token ends: at the first space after it.
pub open spec fn label_end(s: Seq<char>) -> int {
    scan(s, label_start(s), |c: char| is_space(c))
}

/// Whether the line has a label at all: some character is not a space.
pub open spec fn has_label(s: Seq<char>) -> bool {
    label_start(s) < s.len()
}

/// The left edge of the trimmed content of `s[lo..hi)`.
pub open spec fn trim_lo(s: Seq<char>, lo: int, hi: int) -> int {
    let a = scan(s, lo, |c: char| !is_wspace(c));
    if a < hi {
        a
    } else {
        hi
    }
}

/// The right edge of the trimmed content of `s[lo..hi)`.
pub open spec fn trim_hi(s: Seq<char>, lo: int, hi: int) -> int {
    scan_back(s, trim_lo(s, lo, hi), hi, |c: char| is_wspace(c))
}

/// The content of `s[lo..hi)` with surrounding whitespace removed.
pub open spec fn trimmed(s: Seq<char>, lo: int, hi: int) -> Seq<char> {
    s.subrange(trim_lo(s, lo, hi), trim_hi(s, lo, hi))
}

/// A line's label: its first run of non-space characters, whitespace-trimmed.
pub open spec fn label_of(s: Seq<char>) -> Seq<char> {
    trimmed(s, label_start(s), label_end(s))
}

/// The cell of a data line for the column spanning `[s, e)` on the hour
/// row: the line sliced to the column and whitespace-trimmed. The first
/// column starts at the end of the line's own label token rather than at
/// `s`, because labels vary in width; edges are clamped to the line, and
/// an inverted range yields an empty cell.
pub open spec fn cell_spec(line: Seq<char>, s: int, e: int, first: bool) -> Seq<char> {
    let lo0 = if first {
        label_end(line)
    } else {
        s
    };
    let lo = if lo0 < line.len() {
        lo0
    } else {
        line.len() as int
    };
    let hi = if e < line.len() {
        e
    } else {
        line.len() as int
    };
    if lo <= hi {
        trimmed(line, lo, hi)
    } else {
        Seq::<char>::empty()
    }
}

/// The column spans declared by the hour row at or after position `i`:
/// each is a two-digit number together with the run of spaces leading up
/// to it, exactly the width the grid gives that column.
pub open spec fn col_spans_from(s: Seq<char>, i: int) -> Seq<(int, int)>
    decreases s.len() - i
        when 0 <= i <= s.len()
{
    let t = scan_digit_pair(s, i);
    if !(i <= t && t + 1 < s.len()) {
        Seq::<(int, int)>::empty()
    } else {
        let a = scan_back(s, i, t, |c: char| is_space(c));
        seq![(a, t + 2)] + col_spans_from(s, t + 2)
    }
}

/// The column spans of the whole hour row.
pub open spec fn col_spans(s: Seq<char>) -> Seq<(int, int)> {
    col_spans_from(s, 0)
}

/// Whether every character of `s` is an ASCII digit.
pub open spec fn all_digits(s: Seq<char>) -> bool {
    forall|i: int| 0 <= i < s.len() ==> is_digit(#[trigger] s[i])
}

/// The numeric value of a digit string, most significant digit first.
pub open spec fn digits_val(s: Seq<char>) -> int
    decreases s.len(),
{
    if s.len() == 0 {
        0
    } else {
        digits_val(s.drop_last()) * 10 + digit_val(s.last())
    }
}

/// Whether `s` is a well-formed signed decimal integer: an optional sign
/// followed by at least one digit, nothing else.
pub open spec fn valid_int_str(s: Seq<char>) -> bool {
    if s.len() == 0 {
        false
    } else if s[0] == '+' || s[0] == '-' {
        s.len() > 1 && all_digits(s.skip(1))
    } else {
        all_digits(s)
    }
}

/// The value of a well-formed signed decimal integer string.
pub open spec fn int_str_val(s: Seq<char>) -> int {
    if s.len() > 0 && s[0] == '-' {
        -digits_val(s.skip(1))
    } else if s.len() > 0 && s[0] == '+' {
        digits_val(s.skip(1))
    } else {
        digits_val(s)
    }
}

/// What parsing a cell as a signed machine integer yields: its value when
/// the text is a well-formed integer that fits, absence otherwise.
pub open spec fn parse_int_spec(s: Seq<char>) -> Option<int> {
    if valid_int_str(s) && isize::MIN <= int_str_val(s) <= isize::MAX {
        Some(int_str_val(s))
    } else {
        None
    }
}

/// Ten to the `n`-th power.
pub open spec fn pow10(n: nat) -> int
    decreases n,
{
    if n == 0 {
        1
    } else {
        10 * pow10((n - 1) as nat)
    }
}

/// A digit string's value is nonnegative and below ten to its length.
pub proof fn lemma_digits_val_bound(s: Seq<char>)
    requires
        all_digits(s),
    ensures
        0 <= digits_val(s) < pow10(s.len()),
    decreases s.len(),
{
    if s.len() > 0 {
        assert(all_digits(s.drop_last())) by {
            assert(forall|i: int|
                0 <= i < s.len() - 1 ==> #[trigger] s.drop_last()[i] == s[i]);
        }
        lemma_digits_val_bound(s.drop_last());
        assert(0 <= digit_val(s.last()) <= 9);
        assert(digits_val(s.drop_last()) * 10 + 9 < pow10(s.len())) by {
            assert(pow10(s.len()) == 10 * pow10((s.len() - 1) as nat));
        }
    }
}

/// If nothing in `[from, i)` satisfies `p`, the scan reaches at least `i`.
pub proof fn lemma_scan_min(s: Seq<char>, from: int, i: int, p: spec_fn(char) -> bool)
    requires
        0 <= from <= i <= s.len(),
        forall|k: int| from <= k < i ==> !p(s[k]),
    ensures
        scan(s, from, p) >= i,
    decreases i - from,
{
    if from < i {
        lemma_scan_min(s, from + 1, i, p);
    } else {
        lemma_scan_range(s, from, p);
    }
}

/// Extending a digit string to the right never decreases its value.
pub proof fn lemma_digits_val_prefix(s: Seq<char>, k: int)
    requires
        all_digits(s),
        0 <= k <= s.len(),
    ensures
        digits_val(s) >= digits_val(s.take(k)),
    decreases s.len() - k,
{
    if k == s.len() {
        assert(s.take(k) =~= s);
    } else {
        lemma_digits_val_prefix(s, k + 1);
        assert(s.take(k + 1).drop_last() =~= s.take(k));
        assert(s.take(k + 1).last() == s[k]);
        assert(all_digits(s.take(k))) by {
            assert(forall|i: int| 0 <= i < k ==> #[trigger] s.take(k)[i] == s[i]);
        }
        lemma_digits_val_bound(s.take(k));
        assert(digits_val(s.take(k + 1)) == digits_val(s.take(k)) * 10 + digit_val(
            s.take(k + 1).last(),
        ));
        assert(digit_val(s.take(k + 1).last()) >= 0);
    }
}

/// Executable twin of [`is_wspace`].
fn is_wspace_exec(c: char) -> (r: bool)
    ensures
        r == is_wspace(c),
{
    c == ' ' || c == '\t' || c == '\n' || c == '\r' || c == '\x0b' || c == '\x0c'
}

/// Executable twin of [`is_digit`].
fn is_digit_exec(c: char) -> (r: bool)
    ensures
        r == is_digit(c),
{
    '0' <= c && c <= '9'
}

/// Collects the characters of a string into a vector.
pub fn chars_of(s: &str) -> (v: Vec<char>)
    ensures
        v@ == s@,
{
    let n = s.unicode_len();
    let mut v: Vec<char> = Vec::new();
    let mut i: usize = 0;
    while i < n
        invariant
            i <= n,
            n == s@.len(),
            v@ == s@.take(i as int),
        decreases n - i,
    {
        let c = s.get_char(i);
        v.push(c);
        proof {
            assert(s@.take(i + 1) =~= s@.take(i as int).push(s@[i as int]));
        }
        i = i + 1;
    }
    proof {
        assert(s@.take(n as int) =~= s@);
    }
    v
}

/// Splits the raw text into its lines, as borrowed slices of the input.
pub fn split_lines<'a>(raw: &'a str) -> (lines: Vec<&'a str>)
    ensures
        lines@.len() == lines_spec(raw@).len(),
        forall|i: int| 0 <= i < lines@.len() ==> #[trigger] lines@[i]@ == lines_spec(raw@)[i],
{
    let n = raw.unicode_len();
    let mut lines: Vec<&str> = Vec::new();
    let mut pos: usize = 0;
    proof {
        assert(raw@.skip(0) =~= raw@);
    }
    loop
        invariant
            pos <= n,
            n == raw@.len(),
            lines_spec(raw@).len() == lines@.len() + lines_spec(raw@.skip(pos as int)).len(),
            forall|k: int| 0 <= k < lines@.len() ==> #[trigger] lines@[k]@ == lines_spec(raw@)[k],
            forall|k: int|
                0 <= k < lines_spec(raw@.skip(pos as int)).len() ==> #[trigger] lines_spec(
                    raw@.skip(pos as int),
                )[k] == lines_spec(raw@)[lines@.len() + k],
        decreases n - pos,
    {
        let ghost prev = lines@;
        let ghost rest = raw@.skip(pos as int);
        let mut j: usize = pos;
        while j < n && raw.get_char(j) != '\n'
            invariant
                pos <= j <= n,
                n == raw@.len(),
                forall|k: int| pos <= k < j ==> raw@[k] != '\n',
            decreases n - j,
        {
            j = j + 1;
        }
        let line = raw.substring_char(pos, j);
        proof {
            assert(forall|k: int| 0 <= k < rest.len() ==> rest[k] == raw@[k + pos]);
            lemma_lines_step(rest, j - pos);
        }
        lines.push(line);
        if j == n {
            proof {
                assert(rest =~= raw@.subrange(pos as int, n as int));
                assert(lines_spec(rest) == seq![rest]);
                assert(lines_spec(rest)[0] == lines_spec(raw@)[prev.len() as int]);
                assert(lines@ == prev.push(line));
                assert(line@ == rest);
            }
            return lines;
        }
        proof {
            let tail = raw@.skip(j + 1);
            assert(rest.subrange(0, j - pos) =~= raw@.subrange(pos as int, j as int));
            assert(rest.skip(j - pos + 1) =~= tail);
            assert(lines_spec(rest) == seq![rest.subrange(0, j - pos)] + lines_spec(tail));
            assert(line@ == lines_spec(rest)[0]);
            assert(lines@[prev.len() as int]@ == lines_spec(raw@)[prev.len() as int]);
            assert(forall|k: int|
                0 <= k < lines_spec(tail).len() ==> #[trigger] lines_spec(tail)[k] == lines_spec(
                    rest,
                )[k + 1]);
        }
        pos = j + 1;
    }
}

/// Finds the label token of a line: the span of its first run of
/// non-space characters, or nothing when the line is blank.
pub fn label_span(line: &Vec<char>) -> (r: Option<(usize, usize)>)
    ensures
        match r {
            Some(ab) => {
                &&& has_label(line@)
                &&& ab.0 == label_start(line@)
                &&& ab.1 == label_end(line@)
                &&& ab.0 < ab.1 <= line@.len()
            },
            None => !has_label(line@),
        },
{
    let n = line.len();
    let mut a: usize = 0;
    while a < n && line[a] == ' '
        invariant
            a <= n,
            n == line@.len(),
            forall|k: int| 0 <= k < a ==> is_space(line@[k]),
        decreases n - a,
    {
        a = a + 1;
    }
    proof {
        lemma_scan(line@, 0, a as int, |c: char| !is_space(c));
    }
    if a == n {
        return None;
    }
    let mut b: usize = a;
    while b < n && line[b] != ' '
        invariant
            a <= b <= n,
            n == line@.len(),
            forall|k: int| a <= k < b ==> !is_space(line@[k]),
        decreases n - b,
    {
        b = b + 1;
    }
    proof {
        lemma_scan(line@, a as int, b as int, |c: char| is_space(c));
        assert(!is_space(line@[a as int]));
    }
    Some((a, b))
}

/// Trims the whitespace off both ends of the range `[lo, hi)` of a line,
/// returning the edges of the remaining content.
pub fn trim_range(line: &Vec<char>, lo: usize, hi: usize) -> (r: (usize, usize))
    requires
        lo <= hi <= line@.len(),
    ensures
        lo <= r.0 <= r.1 <= hi,
        r.0 == trim_lo(line@, lo as int, hi as int),
        r.1 == trim_hi(line@, lo as int, hi as int),
        trimmed(line@, lo as int, hi as int) == line@.subrange(r.0 as int, r.1 as int),
{
    let mut a: usize = lo;
    while a < hi && is_wspace_exec(line[a])
        invariant
            lo <= a <= hi,
            hi <= line@.len(),
            forall|k: int| lo <= k < a ==> is_wspace(line@[k]),
        decreases hi - a,
    {
        a = a + 1;
    }
    proof {
        let p = |c: char| !is_wspace(c);
        if a < hi {
            lemma_scan(line@, lo as int, a as int, p);
        } else {
            lemma_scan_min(line@, lo as int, hi as int, p);
        }
        assert(a == trim_lo(line@, lo as int, hi as int));
    }
    let mut b: usize = hi;
    while b > a && is_wspace_exec(line[b - 1])
        invariant
            a <= b <= hi,
            hi <= line@.len(),
            forall|k: int| b <= k < hi ==> is_wspace(line@[k]),
        decreases b,
    {
        b = b - 1;
    }
    proof {
        lemma_scan_back(line@, a as int, hi as int, b as int, |c: char| is_wspace(c));
    }
    (a, b)
}

/// Compares the range `[lo, hi)` of a line with a pattern string.
pub fn range_eq_str(line: &Vec<char>, lo: usize, hi: usize, pat: &str) -> (r: bool)
    requires
        lo <= hi <= line@.len(),
    ensures
        r == (line@.subrange(lo as int, hi as int) == pat@),
{
    let m = pat.unicode_len();
    if hi - lo != m {
        proof {
            assert(line@.subrange(lo as int, hi as int).len() != pat@.len());
        }
        return false;
    }
    let mut k: usize = 0;
    while k < m
        invariant
            k <= m,
            lo + m == hi,
            hi <= line@.len(),
            m == pat@.len(),
            forall|j: int| 0 <= j < k ==> line@[lo + j] == pat@[j],
        decreases m - k,
    {
        if line[lo + k] != pat.get_char(k) {
            proof {
                assert(line@.subrange(lo as int, hi as int)[k as int] != pat@[k as int]);
            }
            return false;
        }
        k = k + 1;
    }
    proof {
        assert(line@.subrange(lo as int, hi as int) =~= pat@);
    }
    true
}

/// Finds the column spans of the hour row: each two-digit marker together
/// with the spaces that lead up to it.
pub fn find_columns(line: &Vec<char>) -> (spans: Vec<(usize, usize)>)
    ensures
        spans@.len() == col_spans(line@).len(),
        forall|i: int|
            0 <= i < spans@.len() ==> (#[trigger] spans@[i]).0 == col_spans(line@)[i].0 && spans@[
                i
            ].1 == col_spans(line@)[i].1,
        forall|i: int| 0 <= i < spans@.len() ==> (#[trigger] spans@[i]).0 < spans@[i].1 <= line@.len(),
{
    let n = line.len();
    let mut spans: Vec<(usize, usize)> = Vec::new();
    let mut i: usize = 0;
    loop
        invariant
            i <= n,
            n == line@.len(),
            spans@.len() + col_spans_from(line@, i as int).len() == col_spans(line@).len(),
            forall|k: int|
                0 <= k < spans@.len() ==> (#[trigger] spans@[k]).0 == col_spans(line@)[k].0
                    && spans@[k].1 == col_spans(line@)[k].1,
            forall|k: int|
                0 <= k < col_spans_from(line@, i as int).len() ==> #[trigger] col_spans_from(
                    line@,
                    i as int,
                )[k] == col_spans(line@)[spans@.len() + k],
            forall|k: int| 0 <= k < spans@.len() ==> (#[trigger] spans@[k]).0 < spans@[k].1 <= n,
        decreases n - i,
    {
        let ghost prev = spans@;
        let ghost mid = col_spans_from(line@, i as int);
        let mut t: usize = i;
        while n > 0 && t < n - 1 && !(is_digit_exec(line[t]) && is_digit_exec(line[t + 1]))
            invariant
                i <= t <= n,
                n == line@.len(),
                forall|k: int|
                    i <= k < t ==> !(k + 1 < n && is_digit(line@[k]) && is_digit(
                        #[trigger] line@[k + 1],
                    )),
            decreases n - t,
        {
            t = t + 1;
        }
        if n == 0 || t >= n - 1 {
            proof {
                lemma_scan_digit_pair(line@, i as int, n as int);
                assert(col_spans_from(line@, i as int) =~= Seq::<(int, int)>::empty());
            }
            return spans;
        }
        proof {
            lemma_scan_digit_pair(line@, i as int, t as int);
        }
        let mut a: usize = t;
        while a > i && line[a - 1] == ' '
            invariant
                i <= a <= t,
                t < n == line@.len(),
                forall|k: int| a <= k < t ==> is_space(line@[k]),
            decreases a,
        {
            a = a - 1;
        }
        spans.push((a, t + 2));
        proof {
            lemma_scan_back(line@, i as int, t as int, a as int, |c: char| is_space(c));
            assert(mid == seq![(a as int, t + 2 as int)] + col_spans_from(line@, t + 2));
            assert(mid[0] == (a as int, t + 2 as int));
            assert(spans@[prev.len() as int] == (a, (t + 2) as usize));
            assert(forall|k: int|
                0 <= k < col_spans_from(line@, t + 2).len() ==> #[trigger] col_spans_from(
                    line@,
                    t + 2,
                )[k] == mid[k + 1]);
        }
        i = t + 2;
    }
}

/// Parses the range `[lo, hi)` of a line as an unsigned digit string of at
/// most four digits, the widest field the header's date and time use.
pub fn parse_digits_u16(line: &Vec<char>, lo: usize, hi: usize) -> (r: Option<u16>)
    requires
        lo <= hi <= line@.len(),
        hi - lo <= 4,
    ensures
        match r {
            Some(v) => {
                &&& lo < hi
                &&& all_digits(line@.subrange(lo as int, hi as int))
                &&& v == digits_val(line@.subrange(lo as int, hi as int))
            },
            None => !(lo < hi && all_digits(line@.subrange(lo as int, hi as int))),
        },
{
    if lo == hi {
        return None;
    }
    let ghost s = line@.subrange(lo as int, hi as int);
    let mut acc: u16 = 0;
    let mut k: usize = lo;
    while k < hi
        invariant
            lo <= k <= hi,
            hi <= line@.len(),
            hi - lo <= 4,
            s == line@.subrange(lo as int, hi as int),
            all_digits(line@.subrange(lo as int, k as int)),
            acc == digits_val(line@.subrange(lo as int, k as int)),
            acc < pow10((k - lo) as nat),
        decreases hi - k,
    {
        let c = line[k];
        if !('0' <= c && c <= '9') {
            proof {
                assert(s[k - lo] == line@[k as int]);
            }
            return None;
        }
        let d: u16 = (c as u32 - '0' as u32) as u16;
        proof {
            reveal_with_fuel(pow10, 5);
            lemma_digits_val_bound(line@.subrange(lo as int, k as int));
            let t = line@.subrange(lo as int, (k + 1) as int);
            assert(t.drop_last() =~= line@.subrange(lo as int, k as int));
            assert(t.last() == line@[k as int]);
            assert(forall|j: int|
                0 <= j < t.len() ==> #[trigger] t[j] == line@.subrange(lo as int, k as int).push(
                    line@[k as int],
                )[j]);
        }
        acc = acc * 10 + d;
        k = k + 1;
    }
    proof {
        assert(line@.subrange(lo as int, k as int) == s);
    }
    Some(acc)
}

/// Parses the range `[lo, hi)` of a line as `str::parse::<isize>` would:
/// an optional sign, then digits; absent on malformed text or overflow.
pub fn parse_int_range(line: &Vec<char>, lo: usize, hi: usize) -> (r: Option<isize>)
    requires
        lo <= hi <= line@.len(),
    ensures
        match r {
            Some(v) => parse_int_spec(line@.subrange(lo as int, hi as int)) == Some(v as int),
            None => parse_int_spec(line@.subrange(lo as int, hi as int)) is None,
        },
{
    let ghost s = line@.subrange(lo as int, hi as int);
    if lo == hi {
        return None;
    }
    let c0 = line[lo];
    let neg: bool = c0 == '-';
    let start: usize = if c0 == '-' || c0 == '+' {
        lo + 1
    } else {
        lo
    };
    let ghost digits = line@.subrange(start as int, hi as int);
    proof {
        if start > lo {
            assert(digits =~= s.skip(1));
        } else {
            assert(digits =~= s);
        }
    }
    if start == hi {
        proof {
            assert(!valid_int_str(s));
        }
        return None;
    }
    let bound: i128 = isize::MAX as i128 + 1;
    let mut acc: i128 = 0;
    let mut k: usize = start;
    while k < hi
        invariant
            start <= k <= hi,
            start < hi,
            hi <= line@.len(),
            s == line@.subrange(lo as int, hi as int),
            digits == line@.subrange(start as int, hi as int),
            lo <= start <= lo + 1,
            (start > lo) == (s[0] == '-' || s[0] == '+'),
            neg == (s[0] == '-'),
            start > lo ==> digits == s.skip(1),
            start == lo ==> digits == s,
            all_digits(line@.subrange(start as int, k as int)),
            acc == digits_val(line@.subrange(start as int, k as int)),
            0 <= acc <= bound,
            bound == isize::MAX + 1,
        decreases hi - k,
    {
        let c = line[k];
        if !('0' <= c && c <= '9') {
            proof {
                assert(digits[k - start] == line@[k as int]);
                assert(!all_digits(digits));
                assert(!valid_int_str(s));
            }
            return None;
        }
        let d: i128 = (c as u32 - '0' as u32) as i128;
        proof {
            let t = line@.subrange(start as int, (k + 1) as int);
            assert(t.drop_last() =~= line@.subrange(start as int, k as int));
            assert(t.last() == line@[k as int]);
        }
        acc = acc * 10 + d;
        k = k + 1;
        if acc > bound {
            proof {
                let pre = line@.subrange(start as int, k as int);
                if all_digits(digits) {
                    assert(pre =~= digits.take(k - start));
                    lemma_digits_val_prefix(digits, k - start);
                    assert(digits_val(digits) > isize::MAX + 1);
                    assert(int_str_val(s) > isize::MAX || int_str_val(s) < isize::MIN);
                } else {
                    assert(!valid_int_str(s));
                }
            }
            return None;
        }
    }
    proof {
        assert(line@.subrange(start as int, k as int) == digits);
        assert(valid_int_str(s));
        if neg {
            assert(int_str_val(s) == -digits_val(digits));
        } else {
            assert(int_str_val(s) == digits_val(digits));
        }
    }
    if neg {
        if acc == bound {
            proof {
                assert(int_str_val(s) == isize::MIN);
            }
            return Some(isize::MIN);
        }
        let v: isize = -(acc as isize);
        return Some(v);
    }
    if acc == bound {
        proof {
            assert(int_str_val(s) > isize::MAX);
        }
        return None;
    }
    Some(acc as isize)
}

/// Finds the span of the `n`-th whitespace-separated token of a line.
pub fn nth_token(line: &Vec<char>, n: usize) -> (r: Option<(usize, usize)>)
    ensures
        match r {
            Some(ab) => {
                &&& (n as int) < token_spans(line@).len()
                &&& ab.0 == token_spans(line@)[n as int].0
                &&& ab.1 == token_spans(line@)[n as int].1
                &&& ab.0 < ab.1 <= line@.len()
            },
            None => token_spans(line@).len() <= n,
        },
{
    let len = line.len();
    let mut pos: usize = 0;
    let mut cnt: usize = 0;
    loop
        invariant
            pos <= len,
            cnt <= n,
            len == line@.len(),
            cnt + token_spans_from(line@, pos as int).len() == token_spans(line@).len(),
            forall|k: int|
                0 <= k < token_spans_from(line@, pos as int).len() ==> #[trigger] token_spans_from(
                    line@,
                    pos as int,
                )[k] == token_spans(line@)[cnt + k],
        decreases len - pos,
    {
        let ghost mid = token_spans_from(line@, pos as int);
        let mut a: usize = pos;
        while a < len && is_wspace_exec(line[a])
            invariant
                pos <= a <= len,
                len == line@.len(),
                forall|k: int| pos <= k < a ==> is_wspace(line@[k]),
            decreases len - a,
        {
            a = a + 1;
        }
        proof {
            lemma_scan(line@, pos as int, a as int, |c: char| !is_wspace(c));
        }
        if a == len {
            proof {
                assert(token_spans_from(line@, pos as int) =~= Seq::<(int, int)>::empty());
                assert(token_spans(line@).len() == cnt);
            }
            return None;
        }
        let mut b: usize = a;
        while b < len && !is_wspace_exec(line[b])
            invariant
                a <= b <= len,
                len == line@.len(),
                forall|k: int| a <= k < b ==> !is_wspace(line@[k]),
            decreases len - b,
        {
            b = b + 1;
        }
        proof {
            lemma_scan(line@, a as int, b as int, |c: char| is_wspace(c));
            assert(!is_wspace(line@[a as int]));
            assert(token_spans_from(line@, pos as int) == seq![(a as int, b as int)]
                + token_spans_from(line@, b as int));
        }
        if cnt == n {
            proof {
                assert(mid[0] == (a as int, b as int));
                assert(token_spans(line@)[n as int] == (a as int, b as int));
            }
            return Some((a, b));
        }
        proof {
            assert(forall|k: int|
                0 <= k < token_spans_from(line@, b as int).len() ==> #[trigger] token_spans_from(
                    line@,
                    b as int,
                )[k] == mid[k + 1]);
        }
        cnt = cnt + 1;
        pos = b;
    }
}

} // verus!
