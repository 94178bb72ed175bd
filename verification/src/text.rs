//! Character-level text handling shared by the parser, the printer and the
//! diagnostics renderer.
//!
//! All positions are counted in characters (Unicode scalar values), which is
//! also the unit in which diagnostics report their columns and widths.
use vstd::prelude::*;

verus! {

/// `String::push` appends one character.
pub assume_specification[ String::push ](s: &mut String, ch: char)
    ensures
        final(s)@ == old(s)@.push(ch),
;

// ---------------------------------------------------------------------------
// Whitespace
// ---------------------------------------------------------------------------

/// The characters with the Unicode `White_Space` property (the ones that
/// `char::is_whitespace` accepts).
pub open spec fn is_ws(c: char) -> bool {
    let u = c as u32;
    ||| 0x09 <= u <= 0x0D
    ||| u == 0x20
    ||| u == 0x85
    ||| u == 0xA0
    ||| u == 0x1680
    ||| 0x2000 <= u <= 0x200A
    ||| u == 0x2028
    ||| u == 0x2029
    ||| u == 0x202F
    ||| u == 0x205F
    ||| u == 0x3000
}

/// Number of whitespace characters at the start of `s`.
pub open spec fn ws_prefix_len(s: Seq<char>) -> nat
    decreases s.len(),
{
    if s.len() > 0 && is_ws(s[0]) {
        1 + ws_prefix_len(s.drop_first())
    } else {
        0
    }
}

/// Number of whitespace characters at the end of `s`.
pub open spec fn ws_suffix_len(s: Seq<char>) -> nat
    decreases s.len(),
{
    if s.len() > 0 && is_ws(s.last()) {
        1 + ws_suffix_len(s.drop_last())
    } else {
        0
    }
}

/// `s` without its leading whitespace.
pub open spec fn trim_start(s: Seq<char>) -> Seq<char> {
    s.skip(ws_prefix_len(s) as int)
}

/// `s` without its trailing whitespace.
pub open spec fn trim_end(s: Seq<char>) -> Seq<char> {
    s.take(s.len() - ws_suffix_len(s))
}

/// `s` without leading and trailing whitespace.
pub open spec fn trim(s: Seq<char>) -> Seq<char> {
    trim_end(trim_start(s))
}

/// Every character of `s` is whitespace (this includes the empty sequence).
pub open spec fn all_ws(s: Seq<char>) -> bool {
    forall|i: int| 0 <= i < s.len() ==> is_ws(#[trigger] s[i])
}

/// No character of `s` is whitespace.
pub open spec fn no_ws(s: Seq<char>) -> bool {
    forall|i: int| 0 <= i < s.len() ==> !is_ws(#[trigger] s[i])
}

/// `s` neither starts nor ends with whitespace.
pub open spec fn is_trimmed(s: Seq<char>) -> bool {
    s.len() > 0 ==> !is_ws(s[0]) && !is_ws(s.last())
}

pub proof fn lemma_ws_prefix_len(s: Seq<char>, i: int)
    requires
        0 <= i <= s.len(),
        all_ws(s.take(i)),
        i == s.len() || !is_ws(s[i]),
    ensures
        ws_prefix_len(s) == i,
    decreases i,
{
    if i > 0 {
        assert(is_ws(s.take(i)[0]));
        let t = s.drop_first();
        assert forall|j: int| 0 <= j < i - 1 implies is_ws(#[trigger] t.take(i - 1)[j]) by {
            assert(t.take(i - 1)[j] == s.take(i)[j + 1]);
        }
        if i < s.len() {
            assert(t[i - 1] == s[i]);
        }
        lemma_ws_prefix_len(t, i - 1);
    }
}

pub proof fn lemma_ws_suffix_len(s: Seq<char>, i: int)
    requires
        0 <= i <= s.len(),
        all_ws(s.skip(s.len() - i)),
        i == s.len() || !is_ws(s[s.len() - i - 1]),
    ensures
        ws_suffix_len(s) == i,
    decreases i,
{
    if i > 0 {
        assert(is_ws(s.skip(s.len() - i)[i - 1]));
        let t = s.drop_last();
        assert forall|j: int| 0 <= j < i - 1 implies is_ws(#[trigger] t.skip(t.len() - (i - 1))[j]) by {
            assert(t.skip(t.len() - (i - 1))[j] == s.skip(s.len() - i)[j]);
        }
        if i < s.len() {
            assert(t[t.len() - (i - 1) - 1] == s[s.len() - i - 1]);
        }
        lemma_ws_suffix_len(t, i - 1);
    }
}

/// The leading whitespace run is made of whitespace and is followed by a
/// character that is not whitespace, if by anything.
pub proof fn lemma_ws_prefix_shape(s: Seq<char>)
    ensures
        ws_prefix_len(s) <= s.len(),
        all_ws(s.take(ws_prefix_len(s) as int)),
        ws_prefix_len(s) < s.len() ==> !is_ws(s[ws_prefix_len(s) as int]),
    decreases s.len(),
{
    if s.len() > 0 && is_ws(s[0]) {
        let t = s.drop_first();
        lemma_ws_prefix_shape(t);
        let k = ws_prefix_len(s) as int;
        assert forall|j: int| 0 <= j < k implies is_ws(#[trigger] s.take(k)[j]) by {
            if j > 0 {
                assert(s.take(k)[j] == t.take(k - 1)[j - 1]);
            }
        }
        if k < s.len() {
            assert(s[k] == t[k - 1]);
        }
    }
}

/// The trailing whitespace run is made of whitespace and is preceded by a
/// character that is not whitespace, if by anything.
pub proof fn lemma_ws_suffix_shape(s: Seq<char>)
    ensures
        ws_suffix_len(s) <= s.len(),
        all_ws(s.skip(s.len() - ws_suffix_len(s))),
        ws_suffix_len(s) < s.len() ==> !is_ws(s[s.len() - ws_suffix_len(s) - 1]),
    decreases s.len(),
{
    if s.len() > 0 && is_ws(s.last()) {
        let t = s.drop_last();
        lemma_ws_suffix_shape(t);
        let k = ws_suffix_len(s) as int;
        assert forall|j: int| 0 <= j < k implies is_ws(#[trigger] s.skip(s.len() - k)[j]) by {
            if j < k - 1 {
                assert(s.skip(s.len() - k)[j] == t.skip(t.len() - (k - 1))[j]);
            }
        }
        if k < s.len() {
            assert(s[s.len() - k - 1] == t[t.len() - (k - 1) - 1]);
        }
    }
}

/// What `trim` leaves is trimmed, and is empty exactly when everything was
/// whitespace.
pub proof fn lemma_trim_shape(s: Seq<char>)
    ensures
        is_trimmed(trim(s)),
        trim(s).len() == 0 <==> all_ws(s),
        trim_end(s).len() == 0 <==> all_ws(s),
        trim_start(s).len() > 0 ==> !is_ws(trim_start(s)[0]),
        trim_end(s).len() > 0 ==> !is_ws(trim_end(s).last()),
{
    lemma_ws_prefix_shape(s);
    lemma_ws_suffix_shape(s);
    let a = trim_start(s);
    lemma_ws_suffix_shape(a);
    lemma_ws_prefix_shape(a);
    let p = ws_prefix_len(s) as int;
    if all_ws(s) {
        lemma_ws_prefix_len(s, s.len() as int);
        assert(s.take(s.len() as int) == s);
        let q = s.len() as int;
        assert(s.skip(0) == s);
        lemma_ws_suffix_len(s, q);
    } else {
        let j = choose|j: int| 0 <= j < s.len() && !is_ws(s[j]);
        if p > j {
            assert(s.take(p)[j] == s[j]);
        }
        if ws_suffix_len(s) == s.len() {
            assert(s.skip(0)[j] == s[j]);
        }
        if ws_suffix_len(a) == a.len() {
            assert(a[0] == s[p]);
            assert(a.skip(0)[0] == a[0]);
        }
    }
    let b = trim(s);
    if b.len() > 0 {
        assert(b[0] == a[0]);
        assert(b.last() == a[a.len() - ws_suffix_len(a) - 1]);
    }
}

/// A trimmed sequence is its own trim.
pub proof fn lemma_trim_of_trimmed(s: Seq<char>)
    requires
        is_trimmed(s),
    ensures
        ws_prefix_len(s) == 0,
        ws_suffix_len(s) == 0,
        trim_start(s) == s,
        trim_end(s) == s,
        trim(s) == s,
{
    if s.len() > 0 {
        lemma_ws_prefix_len(s, 0);
        lemma_ws_suffix_len(s, 0);
    } else {
        lemma_ws_prefix_len(s, 0);
        lemma_ws_suffix_len(s, 0);
    }
    assert(s.skip(0) == s);
    assert(s.take(s.len() as int) == s);
}

// ---------------------------------------------------------------------------
// Splitting
// ---------------------------------------------------------------------------

/// The pieces of `s` between occurrences of `sep` (there is always one more
/// piece than there are separators).
pub open spec fn split_on(s: Seq<char>, sep: char) -> Seq<Seq<char>>
    decreases s.len(),
{
    if s.len() == 0 {
        seq![Seq::<char>::empty()]
    } else {
        let p = split_on(s.drop_last(), sep);
        if s.last() == sep {
            p.push(Seq::<char>::empty())
        } else {
            p.update(p.len() - 1, p.last().push(s.last()))
        }
    }
}

pub proof fn lemma_split_on_nonempty(s: Seq<char>, sep: char)
    ensures
        split_on(s, sep).len() >= 1,
    decreases s.len(),
{
    if s.len() > 0 {
        lemma_split_on_nonempty(s.drop_last(), sep);
    }
}

/// Drops one `'\r'` at the end of a line, if there is one.
pub open spec fn strip_cr(l: Seq<char>) -> Seq<char> {
    if l.len() > 0 && l.last() == '\r' {
        l.drop_last()
    } else {
        l
    }
}

/// The lines of `s`, as `str::lines` gives them: lines end at `'\n'`, a
/// `'\r'` directly before that `'\n'` belongs to the line ending, and a final
/// line ending is optional.
pub open spec fn lines_of(s: Seq<char>) -> Seq<Seq<char>> {
    let p = split_on(s, '\n');
    let ended = p.drop_last().map_values(|l: Seq<char>| strip_cr(l));
    if p.last().len() > 0 {
        ended.push(p.last())
    } else {
        ended
    }
}

/// The views of a sequence of character vectors.
pub open spec fn char_views(v: Seq<Vec<char>>) -> Seq<Seq<char>> {
    v.map_values(|x: Vec<char>| x@)
}

/// The views of a sequence of strings.
pub open spec fn string_views(v: Seq<String>) -> Seq<Seq<char>> {
    v.map_values(|x: String| x@)
}

// ---------------------------------------------------------------------------
// Numbers
// ---------------------------------------------------------------------------

pub open spec fn digit_char(d: nat) -> char {
    if d == 0 {
        '0'
    } else if d == 1 {
        '1'
    } else if d == 2 {
        '2'
    } else if d == 3 {
        '3'
    } else if d == 4 {
        '4'
    } else if d == 5 {
        '5'
    } else if d == 6 {
        '6'
    } else if d == 7 {
        '7'
    } else if d == 8 {
        '8'
    } else {
        '9'
    }
}

/// The decimal digits of `n`, without leading zeros (`"0"` for zero).
pub open spec fn decimal(n: nat) -> Seq<char>
    decreases n,
{
    if n < 10 {
        seq![digit_char(n)]
    } else {
        decimal(n / 10).push(digit_char(n % 10))
    }
}

/// `n` copies of `c`.
pub open spec fn repeat_char(c: char, n: nat) -> Seq<char> {
    Seq::new(n, |i: int| c)
}

// ---------------------------------------------------------------------------
// Executable helpers
// ---------------------------------------------------------------------------

/// The characters of a string slice, in order.
pub fn chars_of(s: &str) -> (out: Vec<char>)
    ensures
        out@ == s@,
{
    let mut out: Vec<char> = Vec::new();
    for c in it: s.chars()
        invariant
            out@ == it.seq().take(it.index() as int),
    {
        out.push(c);
    }
    out
}

/// A `String` holding the given characters.
pub fn string_of(v: &Vec<char>) -> (out: String)
    ensures
        out@ == v@,
{
    let mut out = String::new();
    let mut i: usize = 0;
    while i < v.len()
        invariant
            0 <= i <= v.len(),
            out@ == v@.take(i as int),
        decreases v.len() - i,
    {
        out.push(v[i]);
        i = i + 1;
        assert(out@ == v@.take(i as int));
    }
    assert(v@.take(v.len() as int) == v@);
    out
}

/// Appends the characters of `v` to `out`.
pub fn push_chars(out: &mut String, v: &Vec<char>)
    ensures
        final(out)@ == old(out)@ + v@,
{
    let mut i: usize = 0;
    while i < v.len()
        invariant
            0 <= i <= v.len(),
            out@ == old(out)@ + v@.take(i as int),
        decreases v.len() - i,
    {
        out.push(v[i]);
        i = i + 1;
        assert(out@ == old(out)@ + v@.take(i as int));
    }
    assert(v@.take(v.len() as int) == v@);
}

/// Appends `n` copies of `c` to `out`.
pub fn push_repeated(out: &mut String, c: char, n: usize)
    ensures
        final(out)@ == old(out)@ + repeat_char(c, n as nat),
{
    let mut i: usize = 0;
    while i < n
        invariant
            0 <= i <= n,
            out@ == old(out)@ + repeat_char(c, i as nat),
        decreases n - i,
    {
        out.push(c);
        i = i + 1;
        assert(out@ == old(out)@ + repeat_char(c, i as nat));
    }
}

/// The character of a decimal digit.
pub fn digit_of(d: u128) -> (c: char)
    requires
        d < 10,
    ensures
        c == digit_char(d as nat),
{
    if d == 0 {
        '0'
    } else if d == 1 {
        '1'
    } else if d == 2 {
        '2'
    } else if d == 3 {
        '3'
    } else if d == 4 {
        '4'
    } else if d == 5 {
        '5'
    } else if d == 6 {
        '6'
    } else if d == 7 {
        '7'
    } else if d == 8 {
        '8'
    } else {
        '9'
    }
}

/// Appends the decimal digits of `n` to `out`.
pub fn push_decimal(out: &mut String, n: u128)
    ensures
        final(out)@ == old(out)@ + decimal(n as nat),
    decreases n,
{
    if n >= 10 {
        push_decimal(out, n / 10);
    }
    let c = digit_of(n % 10);
    out.push(c);
    proof {
        if n >= 10 {
            assert(decimal(n as nat) == decimal((n / 10) as nat).push(digit_char((n % 10) as nat)));
        } else {
            assert(n % 10 == n);
        }
    }
}

/// Whether `c` is whitespace.
pub fn is_ws_char(c: char) -> (b: bool)
    ensures
        b == is_ws(c),
{
    let u = c as u32;
    (0x09 <= u && u <= 0x0D) || u == 0x20 || u == 0x85 || u == 0xA0 || u == 0x1680 || (0x2000
        <= u && u <= 0x200A) || u == 0x2028 || u == 0x2029 || u == 0x202F || u == 0x205F || u
        == 0x3000
}

/// The number of whitespace characters at the start of `v`.
pub fn ws_prefix(v: &Vec<char>) -> (n: usize)
    ensures
        n == ws_prefix_len(v@),
{
    let mut i: usize = 0;
    while i < v.len() && is_ws_char(v[i])
        invariant
            0 <= i <= v.len(),
            all_ws(v@.take(i as int)),
        decreases v.len() - i,
    {
        proof {
            assert forall|j: int| 0 <= j < i + 1 implies is_ws(#[trigger] v@.take(i + 1)[j]) by {
                if j < i {
                    assert(v@.take(i + 1)[j] == v@.take(i as int)[j]);
                }
            }
        }
        i = i + 1;
    }
    proof {
        lemma_ws_prefix_len(v@, i as int);
    }
    i
}

/// The number of whitespace characters at the end of `v`.
pub fn ws_suffix(v: &Vec<char>) -> (n: usize)
    ensures
        n == ws_suffix_len(v@),
{
    let mut i: usize = 0;
    while i < v.len() && is_ws_char(v[v.len() - 1 - i])
        invariant
            0 <= i <= v.len(),
            all_ws(v@.skip(v.len() - i)),
        decreases v.len() - i,
    {
        proof {
            let k = v.len() - (i + 1);
            assert forall|j: int| 0 <= j < i + 1 implies is_ws(#[trigger] v@.skip(k)[j]) by {
                if j > 0 {
                    assert(v@.skip(k)[j] == v@.skip(v.len() - i)[j - 1]);
                }
            }
        }
        i = i + 1;
    }
    proof {
        lemma_ws_suffix_len(v@, i as int);
    }
    i
}

/// The characters of `v` from `lo` up to (not including) `hi`.
pub fn slice_chars(v: &Vec<char>, lo: usize, hi: usize) -> (out: Vec<char>)
    requires
        lo <= hi <= v.len(),
    ensures
        out@ == v@.subrange(lo as int, hi as int),
{
    let mut out: Vec<char> = Vec::new();
    let mut i: usize = lo;
    while i < hi
        invariant
            lo <= i <= hi <= v.len(),
            out@ == v@.subrange(lo as int, i as int),
        decreases hi - i,
    {
        out.push(v[i]);
        i = i + 1;
        assert(out@ == v@.subrange(lo as int, i as int));
    }
    out
}

/// `v` without leading whitespace.
pub fn trim_start_chars(v: &Vec<char>) -> (out: Vec<char>)
    ensures
        out@ == trim_start(v@),
{
    let n = ws_prefix(v);
    proof {
        lemma_ws_prefix_shape(v@);
    }
    slice_chars(v, n, v.len())
}

/// `v` without trailing whitespace.
pub fn trim_end_chars(v: &Vec<char>) -> (out: Vec<char>)
    ensures
        out@ == trim_end(v@),
{
    let n = ws_suffix(v);
    proof {
        lemma_ws_suffix_shape(v@);
    }
    slice_chars(v, 0, v.len() - n)
}

/// `v` without leading and trailing whitespace.
pub fn trim_chars(v: &Vec<char>) -> (out: Vec<char>)
    ensures
        out@ == trim(v@),
{
    let a = trim_start_chars(v);
    trim_end_chars(&a)
}

/// Whether `v` holds nothing but whitespace.
pub fn is_blank(v: &Vec<char>) -> (b: bool)
    ensures
        b == all_ws(v@),
        b == (trim(v@).len() == 0),
{
    proof {
        lemma_ws_prefix_shape(v@);
        lemma_trim_shape(v@);
    }
    let n = ws_prefix(v);
    proof {
        if n == v.len() {
            assert(v@.take(n as int) == v@);
        } else {
            assert(!is_ws(v@[n as int]));
        }
    }
    n == v.len()
}

/// Whether the characters of `v` from `at` on start with `pat`.
pub fn has_prefix_at(v: &Vec<char>, at: usize, pat: &Vec<char>) -> (b: bool)
    requires
        at <= v.len(),
    ensures
        b == (v@.skip(at as int).len() >= pat@.len() && v@.skip(at as int).take(pat@.len() as int)
            == pat@),
{
    if v.len() - at < pat.len() {
        return false;
    }
    let mut i: usize = 0;
    while i < pat.len()
        invariant
            0 <= i <= pat.len(),
            at + pat.len() <= v.len(),
            forall|j: int| 0 <= j < i ==> v@[at + j] == pat@[j],
        decreases pat.len() - i,
    {
        if v[at + i] != pat[i] {
            proof {
                assert(v@.skip(at as int).take(pat@.len() as int)[i as int] != pat@[i as int]);
            }
            return false;
        }
        i = i + 1;
    }
    assert(v@.skip(at as int).take(pat@.len() as int) =~= pat@);
    true
}

/// Whether two character vectors are equal.
pub fn chars_eq(a: &Vec<char>, b: &Vec<char>) -> (r: bool)
    ensures
        r == (a@ == b@),
{
    if a.len() != b.len() {
        return false;
    }
    let mut i: usize = 0;
    while i < a.len()
        invariant
            0 <= i <= a.len(),
            a.len() == b.len(),
            forall|j: int| 0 <= j < i ==> a@[j] == b@[j],
        decreases a.len() - i,
    {
        if a[i] != b[i] {
            return false;
        }
        i = i + 1;
    }
    assert(a@ =~= b@);
    true
}

/// The lines of `s`, as `str::lines` splits them.
pub fn lines_of_str(s: &str) -> (out: Vec<Vec<char>>)
    ensures
        char_views(out@) == lines_of(s@),
        forall|k: int| 0 <= k < out@.len() ==> out@[k]@.len() <= s@.len(),
{
    let v = chars_of(s);
    let mut out: Vec<Vec<char>> = Vec::new();
    let mut cur: Vec<char> = Vec::new();
    let ghost mut raw: Seq<Seq<char>> = Seq::empty();
    let mut i: usize = 0;
    while i < v.len()
        invariant
            0 <= i <= v.len(),
            v@ == s@,
            split_on(v@.take(i as int), '\n') == raw.push(cur@),
            char_views(out@) == raw.map_values(|l: Seq<char>| strip_cr(l)),
            cur@.len() <= i,
            forall|k: int| 0 <= k < out@.len() ==> out@[k]@.len() <= i,
        decreases v.len() - i,
    {
        let c = v[i];
        proof {
            assert(v@.take(i + 1).drop_last() == v@.take(i as int));
            assert(v@.take(i + 1).last() == c);
        }
        if c == '\n' {
            let ghost old_cur = cur@;
            let mut line = cur;
            if line.len() > 0 && line[line.len() - 1] == '\r' {
                line.pop();
                assert(line@ == old_cur.drop_last());
            }
            assert(line@ == strip_cr(old_cur));
            let ghost old_raw = raw;
            let ghost old_out = out@;
            proof {
                raw = raw.push(old_cur);
            }
            out.push(line);
            cur = Vec::new();
            proof {
                assert(out@ == old_out.push(line));
                assert(char_views(old_out).len() == old_out.len());
                assert(old_out.len() == old_raw.len());
                assert(raw.len() == out@.len());
                assert forall|k: int| 0 <= k < out@.len() implies #[trigger] char_views(out@)[k]
                    == raw.map_values(|l: Seq<char>| strip_cr(l))[k] by {
                    if k < old_out.len() {
                        assert(char_views(old_out)[k] == old_raw.map_values(
                            |l: Seq<char>| strip_cr(l),
                        )[k]);
                        assert(out@[k] == old_out[k]);
                        assert(raw[k] == old_raw[k]);
                    } else {
                        assert(out@[k] == line);
                        assert(raw[k] == old_cur);
                    }
                }
                assert(char_views(out@) =~= raw.map_values(|l: Seq<char>| strip_cr(l)));
            }
        } else {
            cur.push(c);
        }
        i = i + 1;
    }
    proof {
        assert(v@.take(v.len() as int) == v@);
    }
    let ghost p = raw.push(cur@);
    assert(p.drop_last() == raw);
    if cur.len() > 0 {
        out.push(cur);
        assert(char_views(out@) =~= lines_of(s@));
    } else {
        assert(char_views(out@) =~= lines_of(s@));
    }
    out
}

} // verus!
