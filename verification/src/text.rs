//! The mathematical model of source text: UTF-8 and UTF-16 widths of
//! characters and of prefixes of a character sequence, character boundaries
//! expressed as byte offsets, and the line-start index of a text.

use vstd::prelude::*;

verus! {

/// Number of bytes in the UTF-8 encoding of a character.
pub open spec fn char_utf8_len(c: char) -> int {
    if (c as u32) < 0x80 {
        1
    } else if (c as u32) < 0x800 {
        2
    } else if (c as u32) < 0x10000 {
        3
    } else {
        4
    }
}

/// Number of UTF-16 code units in the encoding of a character.
pub open spec fn char_utf16_len(c: char) -> int {
    if (c as u32) < 0x10000 {
        1
    } else {
        2
    }
}

/// Byte offset of the character at index `k`: the UTF-8 length of the
/// first `k` characters of `s`.
pub open spec fn prefix_utf8_len(s: Seq<char>, k: int) -> int
    decreases k,
{
    if k <= 0 {
        0
    } else {
        prefix_utf8_len(s, k - 1) + char_utf8_len(s[k - 1])
    }
}

/// UTF-16 length of the first `k` characters of `s`.
pub open spec fn prefix_utf16_len(s: Seq<char>, k: int) -> int
    decreases k,
{
    if k <= 0 {
        0
    } else {
        prefix_utf16_len(s, k - 1) + char_utf16_len(s[k - 1])
    }
}

/// Total UTF-8 length of `s` in bytes.
pub open spec fn utf8_len(s: Seq<char>) -> int {
    prefix_utf8_len(s, s.len() as int)
}

/// Total UTF-16 length of `s` in code units.
pub open spec fn utf16_len(s: Seq<char>) -> int {
    prefix_utf16_len(s, s.len() as int)
}

/// Number of bytes the UTF-8 encoding of `c` occupies, computed from its
/// scalar value.
pub fn utf8_width_of_char(c: char) -> (n: usize)
    ensures
        n == char_utf8_len(c),
{
    let u = c as u32;
    if u < 0x80 {
        1
    } else if u < 0x800 {
        2
    } else if u < 0x10000 {
        3
    } else {
        4
    }
}

/// Number of UTF-16 code units the encoding of `c` occupies, computed from
/// its scalar value.
pub fn utf16_width_of_char(c: char) -> (n: usize)
    ensures
        n == char_utf16_len(c),
{
    let u = c as u32;
    if u < 0x10000 {
        1
    } else {
        2
    }
}

/// Growth of a UTF-8 prefix length: each character adds at least one and at
/// most four bytes.
pub proof fn lemma_prefix_utf8_len_mono(s: Seq<char>, k1: int, k2: int)
    requires
        0 <= k1 <= k2,
    ensures
        prefix_utf8_len(s, k1) + (k2 - k1) <= prefix_utf8_len(s, k2),
        prefix_utf8_len(s, k2) <= prefix_utf8_len(s, k1) + 4 * (k2 - k1),
    decreases k2 - k1,
{
    if k1 < k2 {
        lemma_prefix_utf8_len_mono(s, k1, k2 - 1);
    }
}

/// Growth of a UTF-16 prefix length: each character adds one or two units.
pub proof fn lemma_prefix_utf16_len_mono(s: Seq<char>, k1: int, k2: int)
    requires
        0 <= k1 <= k2,
    ensures
        prefix_utf16_len(s, k1) + (k2 - k1) <= prefix_utf16_len(s, k2),
        prefix_utf16_len(s, k2) <= prefix_utf16_len(s, k1) + 2 * (k2 - k1),
    decreases k2 - k1,
{
    if k1 < k2 {
        lemma_prefix_utf16_len_mono(s, k1, k2 - 1);
    }
}

/// True when byte offset `b` is the start of a character of `s`, or the end
/// of the text.
pub open spec fn is_char_boundary_at(s: Seq<char>, b: int) -> bool {
    exists|k: int| 0 <= k <= s.len() && prefix_utf8_len(s, k) == b
}

/// The index of the character that starts at byte offset `b`, or the number
/// of characters when `b` is the total byte length.
pub open spec fn char_index_at(s: Seq<char>, b: int) -> int {
    choose|k: int| 0 <= k <= s.len() && prefix_utf8_len(s, k) == b
}

/// At a character boundary the character index is unique.
pub proof fn lemma_char_index_at(s: Seq<char>, b: int)
    requires
        is_char_boundary_at(s, b),
    ensures
        0 <= char_index_at(s, b) <= s.len(),
        prefix_utf8_len(s, char_index_at(s, b)) == b,
        forall|k: int|
            0 <= k <= s.len() && prefix_utf8_len(s, k) == b ==> k == char_index_at(s, b),
{
    let k0 = char_index_at(s, b);
    assert(0 <= k0 <= s.len() && prefix_utf8_len(s, k0) == b);
    assert forall|k: int|
        0 <= k <= s.len() && prefix_utf8_len(s, k) == b implies k == k0 by {
        if k < k0 {
            lemma_prefix_utf8_len_mono(s, k, k0);
        } else if k0 < k {
            lemma_prefix_utf8_len_mono(s, k0, k);
        }
    }
}

/// True when UTF-16 offset `u` is the start of a character of `s`, or the
/// total UTF-16 length of the text. Offsets inside a surrogate pair are not
/// boundaries.
pub open spec fn is_utf16_boundary_at(s: Seq<char>, u: int) -> bool {
    exists|k: int| 0 <= k <= s.len() && prefix_utf16_len(s, k) == u
}

/// The index of the character that starts at UTF-16 offset `u`, or the
/// number of characters when `u` is the total UTF-16 length.
pub open spec fn utf16_char_index_at(s: Seq<char>, u: int) -> int {
    choose|k: int| 0 <= k <= s.len() && prefix_utf16_len(s, k) == u
}

/// At a UTF-16 boundary the character index is unique.
pub proof fn lemma_utf16_char_index_at(s: Seq<char>, u: int)
    requires
        is_utf16_boundary_at(s, u),
    ensures
        0 <= utf16_char_index_at(s, u) <= s.len(),
        prefix_utf16_len(s, utf16_char_index_at(s, u)) == u,
        forall|k: int|
            0 <= k <= s.len() && prefix_utf16_len(s, k) == u ==> k == utf16_char_index_at(s, u),
{
    let k0 = utf16_char_index_at(s, u);
    assert(0 <= k0 <= s.len() && prefix_utf16_len(s, k0) == u);
    assert forall|k: int|
        0 <= k <= s.len() && prefix_utf16_len(s, k) == u implies k == k0 by {
        if k < k0 {
            lemma_prefix_utf16_len_mono(s, k, k0);
        } else if k0 < k {
            lemma_prefix_utf16_len_mono(s, k0, k);
        }
    }
}

/// A character's UTF-16 encoding never takes more units than its UTF-8
/// encoding takes bytes, so UTF-16 prefix lengths are bounded by UTF-8 ones.
pub proof fn lemma_prefix_utf16_le_utf8(s: Seq<char>, k: int)
    ensures
        prefix_utf16_len(s, k) <= prefix_utf8_len(s, k),
    decreases k,
{
    if k > 0 {
        lemma_prefix_utf16_le_utf8(s, k - 1);
    }
}

/// A UTF-8 prefix length within a subrange equals the difference of the
/// corresponding prefix lengths of the whole text.
pub proof fn lemma_prefix_utf8_len_subrange(s: Seq<char>, a: int, b: int, j: int)
    requires
        0 <= a <= b <= s.len(),
        0 <= j <= b - a,
    ensures
        prefix_utf8_len(s.subrange(a, b), j) == prefix_utf8_len(s, a + j) - prefix_utf8_len(s, a),
    decreases j,
{
    if j > 0 {
        lemma_prefix_utf8_len_subrange(s, a, b, j - 1);
    }
}

/// A UTF-16 prefix length within a subrange equals the difference of the
/// corresponding prefix lengths of the whole text.
pub proof fn lemma_prefix_utf16_len_subrange(s: Seq<char>, a: int, b: int, j: int)
    requires
        0 <= a <= b <= s.len(),
        0 <= j <= b - a,
    ensures
        prefix_utf16_len(s.subrange(a, b), j) == prefix_utf16_len(s, a + j) - prefix_utf16_len(
            s,
            a,
        ),
    decreases j,
{
    if j > 0 {
        lemma_prefix_utf16_len_subrange(s, a, b, j - 1);
    }
}

/// Byte offsets at which the logical lines of the first `k` characters of
/// `s` start: offset 0, then one past each `'\n'`.
pub open spec fn line_starts_upto(s: Seq<char>, k: int) -> Seq<int>
    decreases k,
{
    if k <= 0 {
        seq![0]
    } else if s[k - 1] == '\n' {
        line_starts_upto(s, k - 1).push(prefix_utf8_len(s, k))
    } else {
        line_starts_upto(s, k - 1)
    }
}

/// The line-start index of the whole text `s`.
pub open spec fn line_starts_of(s: Seq<char>) -> Seq<int> {
    line_starts_upto(s, s.len() as int)
}

/// True when the sequence is strictly increasing.
pub open spec fn strictly_sorted(ls: Seq<int>) -> bool {
    forall|j1: int, j2: int|
        #![trigger ls[j1], ls[j2]]
        0 <= j1 < j2 < ls.len() ==> ls[j1] < ls[j2]
}

/// True when `v` is the byte offset one past a `'\n'` among the first `k`
/// characters of `s`.
pub open spec fn start_after_newline(s: Seq<char>, k: int, v: int) -> bool {
    exists|m: int| 0 <= m < k && s[m] == '\n' && v == prefix_utf8_len(s, m + 1)
}

/// The shape of a line-start index for the first `k` characters of `s`:
/// it begins at offset 0, is strictly increasing, stays within the prefix,
/// holds exactly the offsets one past each `'\n'`, and each entry is a
/// character boundary.
pub open spec fn line_starts_shape(s: Seq<char>, k: int, ls: Seq<int>) -> bool {
    &&& 1 <= ls.len() <= k + 1
    &&& ls[0] == 0
    &&& strictly_sorted(ls)
    &&& forall|j: int| 0 <= j < ls.len() ==> 0 <= #[trigger] ls[j] <= prefix_utf8_len(s, k)
    &&& forall|j: int| 0 < j < ls.len() ==> start_after_newline(s, k, #[trigger] ls[j])
    &&& forall|m: int|
            0 <= m < k && s[m] == '\n' ==> ls.contains(#[trigger] prefix_utf8_len(s, m + 1))
    &&& forall|j: int| 0 <= j < ls.len() ==> is_char_boundary_at(s, #[trigger] ls[j])
}

proof fn lemma_lsu_basic(s: Seq<char>, k: int)
    requires
        0 <= k <= s.len(),
    ensures
        1 <= line_starts_upto(s, k).len() <= k + 1,
        line_starts_upto(s, k)[0] == 0,
        strictly_sorted(line_starts_upto(s, k)),
        forall|j: int|
            0 <= j < line_starts_upto(s, k).len() ==> 0 <= #[trigger] line_starts_upto(s, k)[j]
                <= prefix_utf8_len(s, k),
        forall|j: int|
            0 <= j < line_starts_upto(s, k).len() ==> is_char_boundary_at(
                s,
                #[trigger] line_starts_upto(s, k)[j],
            ),
    decreases k,
{
    let ls = line_starts_upto(s, k);
    if k <= 0 {
        assert(prefix_utf8_len(s, 0) == 0);
        assert(is_char_boundary_at(s, 0));
    } else {
        lemma_lsu_basic(s, k - 1);
        let prev = line_starts_upto(s, k - 1);
        lemma_prefix_utf8_len_mono(s, k - 1, k);
        if s[k - 1] == '\n' {
            assert(forall|j: int| 0 <= j < prev.len() ==> #[trigger] ls[j] == prev[j]);
            assert(ls.last() == prefix_utf8_len(s, k));
            assert(is_char_boundary_at(s, prefix_utf8_len(s, k)));
        }
    }
}

proof fn lemma_lsu_newlines(s: Seq<char>, k: int)
    requires
        0 <= k <= s.len(),
    ensures
        forall|j: int|
            0 < j < line_starts_upto(s, k).len() ==> start_after_newline(
                s,
                k,
                #[trigger] line_starts_upto(s, k)[j],
            ),
        forall|m: int|
            0 <= m < k && s[m] == '\n' ==> line_starts_upto(s, k).contains(
                #[trigger] prefix_utf8_len(s, m + 1),
            ),
    decreases k,
{
    let ls = line_starts_upto(s, k);
    if k > 0 {
        lemma_lsu_newlines(s, k - 1);
        let prev = line_starts_upto(s, k - 1);
        assert forall|j: int| 0 < j < line_starts_upto(s, k).len() implies start_after_newline(
            s,
            k,
            #[trigger] line_starts_upto(s, k)[j],
        ) by {
            if s[k - 1] == '\n' && j == ls.len() - 1 {
                let m0 = k - 1;
                assert(0 <= m0 < k && s[m0] == '\n' && ls[j] == prefix_utf8_len(s, m0 + 1));
            } else {
                assert(0 < j < line_starts_upto(s, k - 1).len());
                assert(start_after_newline(s, k - 1, line_starts_upto(s, k - 1)[j]));
                let m0 = choose|m: int|
                    0 <= m < k - 1 && s[m] == '\n' && prev[j] == prefix_utf8_len(s, m + 1);
                assert(0 <= m0 < k && s[m0] == '\n' && ls[j] == prefix_utf8_len(s, m0 + 1));
            }
        }
        assert forall|m: int| 0 <= m < k && s[m] == '\n' implies ls.contains(
            #[trigger] prefix_utf8_len(s, m + 1),
        ) by {
            if m < k - 1 {
                assert(prev.contains(prefix_utf8_len(s, m + 1)));
                let j = choose|j: int|
                    0 <= j < prev.len() && prev[j] == prefix_utf8_len(s, m + 1);
                if s[k - 1] == '\n' {
                    assert(ls[j] == prefix_utf8_len(s, m + 1));
                }
            } else {
                assert(s[k - 1] == '\n');
                assert(ls[ls.len() - 1] == prefix_utf8_len(s, k));
            }
        }
    }
}

/// The index of the first `k` characters has the line-start shape.
pub proof fn lemma_line_starts_upto_props(s: Seq<char>, k: int)
    requires
        0 <= k <= s.len(),
    ensures
        line_starts_shape(s, k, line_starts_upto(s, k)),
{
    lemma_lsu_basic(s, k);
    lemma_lsu_newlines(s, k);
}

/// The line-start index of the whole text has the line-start shape.
pub proof fn lemma_line_starts_props(s: Seq<char>)
    ensures
        line_starts_shape(s, s.len() as int, line_starts_of(s)),
{
    lemma_line_starts_upto_props(s, s.len() as int);
}

/// True when line `j` is the line containing byte offset `b` of `s`: the
/// last line whose start is at or before `b`.
pub open spec fn is_line_index_of(s: Seq<char>, b: int, j: int) -> bool {
    let ls = line_starts_of(s);
    &&& 0 <= j < ls.len()
    &&& ls[j] <= b
    &&& (j + 1 < ls.len() ==> b < ls[j + 1])
}

/// The index of the line containing byte offset `b` of `s`.
pub open spec fn line_index_of(s: Seq<char>, b: int) -> int {
    choose|j: int| is_line_index_of(s, b, j)
}

/// For each byte offset there is exactly one containing line.
pub proof fn lemma_line_index_of(s: Seq<char>, b: int)
    requires
        0 <= b,
    ensures
        is_line_index_of(s, b, line_index_of(s, b)),
        forall|j: int| is_line_index_of(s, b, j) ==> j == line_index_of(s, b),
{
    let ls = line_starts_of(s);
    lemma_line_starts_props(s);
    lemma_line_index_exists(s, b, 0);
    let j0 = line_index_of(s, b);
    assert(is_line_index_of(s, b, j0));
    assert forall|j: int| is_line_index_of(s, b, j) implies j == j0 by {
        if j < j0 {
            assert(ls[j + 1] <= ls[j0]);
        } else if j0 < j {
            assert(ls[j0 + 1] <= ls[j]);
        }
    }
}

proof fn lemma_line_index_exists(s: Seq<char>, b: int, j: int)
    requires
        0 <= b,
        0 <= j < line_starts_of(s).len(),
        line_starts_of(s)[j] <= b,
    ensures
        exists|j2: int| is_line_index_of(s, b, j2),
    decreases line_starts_of(s).len() - j,
{
    let ls = line_starts_of(s);
    if j + 1 < ls.len() && ls[j + 1] <= b {
        lemma_line_index_exists(s, b, j + 1);
    } else {
        assert(is_line_index_of(s, b, j));
    }
}

/// The line of a byte offset never decreases as the offset grows.
pub proof fn lemma_line_index_mono(s: Seq<char>, b0: int, b1: int)
    requires
        0 <= b0 <= b1,
    ensures
        line_index_of(s, b0) <= line_index_of(s, b1),
{
    lemma_line_starts_props(s);
    lemma_line_index_of(s, b0);
    lemma_line_index_of(s, b1);
    let j0 = line_index_of(s, b0);
    let j1 = line_index_of(s, b1);
    if j1 < j0 {
        let ls = line_starts_of(s);
        assert(ls[j1 + 1] <= ls[j0]);
        assert(false);
    }
}

/// Relies on `String::push` from std: it appends exactly one character.
pub assume_specification[ String::push ](s: &mut String, c: char)
    ensures
        final(s)@ == old(s)@.push(c),
;

/// The character index of the first `'\n'` of `s`, or the length of `s`
/// when it has none.
pub open spec fn first_nl(s: Seq<char>) -> int
    decreases s.len(),
{
    if s.len() == 0 {
        0
    } else if s[0] == '\n' {
        0
    } else {
        1 + first_nl(s.drop_first())
    }
}

/// The first newline index is within the text, no `'\n'` comes before it,
/// and it points at a `'\n'` unless there is none.
pub proof fn lemma_first_nl(s: Seq<char>)
    ensures
        0 <= first_nl(s) <= s.len(),
        forall|i: int| 0 <= i < first_nl(s) ==> s[i] != '\n',
        first_nl(s) < s.len() ==> s[first_nl(s)] == '\n',
    decreases s.len(),
{
    if s.len() > 0 && s[0] != '\n' {
        lemma_first_nl(s.drop_first());
        assert(forall|i: int| 0 <= i < first_nl(s.drop_first()) ==> s.drop_first()[i] != '\n');
        assert forall|i: int| 0 <= i < first_nl(s) implies s[i] != '\n' by {
            if i > 0 {
                assert(s.drop_first()[i - 1] != '\n');
            }
        }
    }
}

/// A line piece with a trailing carriage return removed.
pub open spec fn strip_cr(p: Seq<char>) -> Seq<char> {
    if p.len() > 0 && p.last() == '\r' {
        p.drop_last()
    } else {
        p
    }
}

/// The lines of a text: pieces split around each `'\n'`, each with a
/// trailing `'\r'` removed; a final line break produces no empty last line.
pub open spec fn lines_of(s: Seq<char>) -> Seq<Seq<char>>
    decreases s.len(),
    via lines_of_decreases
{
    if s.len() == 0 {
        Seq::empty()
    } else {
        let e = first_nl(s);
        if e == s.len() {
            seq![strip_cr(s)]
        } else {
            seq![strip_cr(s.take(e))] + lines_of(s.skip(e + 1))
        }
    }
}

#[via_fn]
proof fn lines_of_decreases(s: Seq<char>) {
    lemma_first_nl(s);
}

/// A position before which no `'\n'` occurs, and which holds one or is the
/// end of the text, is the first newline position.
pub proof fn lemma_first_nl_is(s: Seq<char>, e: int)
    requires
        0 <= e <= s.len(),
        forall|i: int| 0 <= i < e ==> s[i] != '\n',
        e < s.len() ==> s[e] == '\n',
    ensures
        first_nl(s) == e,
    decreases s.len(),
{
    if s.len() > 0 && s[0] != '\n' {
        assert forall|i: int| 0 <= i < e - 1 implies s.drop_first()[i] != '\n' by {
            assert(s[i + 1] != '\n');
        }
        lemma_first_nl_is(s.drop_first(), e - 1);
    }
}

/// Split a text into its lines: pieces around each `'\n'`, each with a
/// trailing `'\r'` removed; a final line break yields no empty last line.
pub fn split_lines(text: &str) -> (r: Vec<String>)
    ensures
        r.deep_view() == lines_of(text@),
{
    let ghost full = text@;
    let n = text.unicode_len();
    let mut out: Vec<String> = Vec::new();
    let mut k: usize = 0;
    proof {
        assert(full.skip(0) =~= full);
        assert(out.deep_view() =~= Seq::<Seq<char>>::empty());
    }
    while k < n
        invariant
            full == text@,
            n == full.len(),
            0 <= k <= n,
            lines_of(full) =~= out.deep_view() + lines_of(full.skip(k as int)),
        decreases n - k,
    {
        let ghost k0 = k as int;
        let ghost rem = full.skip(k0);
        let mut e = k;
        while e < n && text.get_char(e) != '\n'
            invariant
                full == text@,
                n == full.len(),
                k <= e <= n,
                forall|i: int| k as int <= i < e as int ==> full[i] != '\n',
            decreases n - e,
        {
            e = e + 1;
        }
        proof {
            assert forall|i: int| 0 <= i < e as int - k0 implies rem[i] != '\n' by {
                assert(full[i + k0] != '\n');
            }
            lemma_first_nl_is(rem, e as int - k0);
        }
        let piece_end = if e > k && text.get_char(e - 1) == '\r' {
            e - 1
        } else {
            e
        };
        let piece = text.substring_char(k, piece_end);
        proof {
            if e < n {
                assert(strip_cr(rem.take(e as int - k0)) =~= full.subrange(
                    k0,
                    piece_end as int,
                ));
                assert(rem.skip(e as int - k0 + 1) =~= full.skip(e as int + 1));
            } else {
                assert(strip_cr(rem) =~= full.subrange(k0, piece_end as int));
            }
        }
        out.push(piece.to_owned());
        k = if e < n {
            e + 1
        } else {
            n
        };
        proof {
            assert(lines_of(full) =~= out.deep_view() + lines_of(full.skip(k as int)));
        }
    }
    proof {
        assert(full.skip(n as int) =~= Seq::empty());
        assert(lines_of(full) =~= out.deep_view());
    }
    out
}

/// True when `c` has the Unicode white-space property, as `str::trim_end`
/// understands it.
pub open spec fn is_whitespace_char(c: char) -> bool {
    ||| 0x9 <= (c as u32) <= 0xd
    ||| c == ' '
    ||| (c as u32) == 0x85
    ||| (c as u32) == 0xa0
    ||| (c as u32) == 0x1680
    ||| 0x2000 <= (c as u32) <= 0x200a
    ||| (c as u32) == 0x2028
    ||| (c as u32) == 0x2029
    ||| (c as u32) == 0x202f
    ||| (c as u32) == 0x205f
    ||| (c as u32) == 0x3000
}

/// Whether a character is white space, by the same ranges.
pub fn whitespace_char(c: char) -> (r: bool)
    ensures
        r == is_whitespace_char(c),
{
    let u = c as u32;
    (0x9 <= u && u <= 0xd) || u == 0x20 || u == 0x85 || u == 0xa0 || u == 0x1680 || (0x2000 <= u
        && u <= 0x200a) || u == 0x2028 || u == 0x2029 || u == 0x202f || u == 0x205f || u == 0x3000
}

/// A text with its trailing white space removed.
pub open spec fn trimmed_end(p: Seq<char>) -> Seq<char>
    decreases p.len(),
{
    if p.len() > 0 && is_whitespace_char(p.last()) {
        trimmed_end(p.drop_last())
    } else {
        p
    }
}

/// The trimmed text is the prefix up to the position after the last
/// non-white-space character.
pub proof fn lemma_trimmed_end_is(p: Seq<char>, m: int)
    requires
        0 <= m <= p.len(),
        forall|i: int| m <= i < p.len() ==> is_whitespace_char(#[trigger] p[i]),
        m > 0 ==> !is_whitespace_char(p[m - 1]),
    ensures
        trimmed_end(p) == p.take(m),
    decreases p.len(),
{
    if m == p.len() {
        assert(p.take(m) =~= p);
    } else {
        assert(is_whitespace_char(p.last()));
        assert forall|i: int| m <= i < p.drop_last().len() implies is_whitespace_char(
            #[trigger] p.drop_last()[i],
        ) by {
            assert(p.drop_last()[i] == p[i]);
        }
        lemma_trimmed_end_is(p.drop_last(), m);
        assert(p.drop_last().take(m) =~= p.take(m));
    }
}

/// Remove trailing white space from a string slice.
pub fn trim_end_str(t: &str) -> (r: String)
    ensures
        r@ == trimmed_end(t@),
{
    let ghost p = t@;
    let n = t.unicode_len();
    let mut k: usize = 0;
    let mut end: usize = 0;
    while k < n
        invariant
            p == t@,
            n == p.len(),
            0 <= end <= k <= n,
            forall|i: int| end as int <= i < k as int ==> is_whitespace_char(#[trigger] p[i]),
            end > 0 ==> !is_whitespace_char(p[end as int - 1]),
        decreases n - k,
    {
        if !whitespace_char(t.get_char(k)) {
            end = k + 1;
        }
        k = k + 1;
    }
    proof {
        lemma_trimmed_end_is(p, end as int);
    }
    let r = t.substring_char(0, end).to_owned();
    proof {
        assert(p.subrange(0, end as int) =~= p.take(end as int));
    }
    r
}

/// The decimal digit character for a value between 0 and 9.
pub open spec fn dec_digit(d: int) -> char {
    if d == 0 {
        '0'
    } else if d == 1 {
        '1'
    } else if d == 2 {
        '2'
    } else if d == 3 {
        '3'
    } else if d == 4 {
        '4'
    } else if d == 5 {
        '5'
    } else if d == 6 {
        '6'
    } else if d == 7 {
        '7'
    } else if d == 8 {
        '8'
    } else {
        '9'
    }
}

/// The decimal digits of a non-negative number, most significant first.
pub open spec fn dec_digits(n: int) -> Seq<char>
    decreases n,
{
    if n < 10 {
        seq![dec_digit(n)]
    } else {
        dec_digits(n / 10).push(dec_digit(n % 10))
    }
}

/// A decimal numeral has at least one digit.
pub proof fn lemma_dec_digits_len(n: int)
    ensures
        dec_digits(n).len() >= 1,
    decreases n,
{
    if n >= 10 {
        lemma_dec_digits_len(n / 10);
    }
}

/// Append the decimal numeral of `n` to a string.
pub fn push_decimal(out: &mut String, n: usize)
    ensures
        final(out)@ == old(out)@ + dec_digits(n as int),
    decreases n,
{
    if n >= 10 {
        push_decimal(out, n / 10);
    }
    let d: char = match n % 10 {
        0 => '0',
        1 => '1',
        2 => '2',
        3 => '3',
        4 => '4',
        5 => '5',
        6 => '6',
        7 => '7',
        8 => '8',
        _ => '9',
    };
    out.push(d);
    proof {
        if n < 10 {
            assert(old(out)@ + dec_digits(n as int) =~= final(out)@);
        } else {
            assert(old(out)@ + dec_digits(n as int) =~= final(out)@);
        }
    }
}

/// The number of decimal digits of `n`: the width of its numeral.
pub fn decimal_width(n: usize) -> (w: usize)
    ensures
        w as int == dec_digits(n as int).len(),
    decreases n,
{
    if n < 10 {
        1
    } else {
        let w = decimal_width(n / 10);
        proof {
            lemma_dec_digits_len(n as int / 10);
            lemma_dec_digits_width_bound(n as int / 10);
        }
        w + 1
    }
}

/// A numeral's width is bounded by the value it renders, so width
/// arithmetic cannot overflow.
pub proof fn lemma_dec_digits_width_bound(n: int)
    requires
        n >= 0,
    ensures
        dec_digits(n).len() <= n + 1,
        n >= 1 ==> dec_digits(n).len() <= n,
    decreases n,
{
    if n >= 10 {
        lemma_dec_digits_width_bound(n / 10);
    }
}

/// The byte offset at which line `line` of `s` starts.
pub open spec fn line_start_of(s: Seq<char>, line: int) -> int {
    line_starts_of(s)[line]
}

/// The byte offset at which line `line` of `s` ends: the start of the next
/// line, or the total byte length for the last line.
pub open spec fn line_end_of(s: Seq<char>, line: int) -> int {
    if line + 1 < line_starts_of(s).len() {
        line_starts_of(s)[line + 1]
    } else {
        utf8_len(s)
    }
}

/// The characters of line `line` of `s`, trailing line break included.
pub open spec fn line_chars_of(s: Seq<char>, line: int) -> Seq<char> {
    s.subrange(char_index_at(s, line_start_of(s, line)), char_index_at(s, line_end_of(s, line)))
}

/// The box of a line: its start and end offsets are ordered character
/// boundaries within the text, and the line's characters relate to the
/// whole text through its prefix lengths.
pub proof fn lemma_line_box(s: Seq<char>, line: int)
    requires
        0 <= line < line_starts_of(s).len(),
    ensures
        ({
            let start = line_start_of(s, line);
            let end = line_end_of(s, line);
            let ka = char_index_at(s, start);
            let ke = char_index_at(s, end);
            &&& 0 <= start <= end <= utf8_len(s)
            &&& is_char_boundary_at(s, start)
            &&& is_char_boundary_at(s, end)
            &&& 0 <= ka <= ke <= s.len()
            &&& prefix_utf8_len(s, ka) == start
            &&& prefix_utf8_len(s, ke) == end
            &&& line_chars_of(s, line).len() == ke - ka
            &&& utf8_len(line_chars_of(s, line)) == end - start
            &&& utf16_len(line_chars_of(s, line)) == prefix_utf16_len(s, ke) - prefix_utf16_len(
                s,
                ka,
            )
        }),
{
    lemma_line_starts_props(s);
    let start = line_start_of(s, line);
    let end = line_end_of(s, line);
    assert(prefix_utf8_len(s, s.len() as int) == utf8_len(s));
    assert(is_char_boundary_at(s, end));
    assert(start <= end);
    lemma_char_index_at(s, start);
    lemma_char_index_at(s, end);
    let ka = char_index_at(s, start);
    let ke = char_index_at(s, end);
    if ke < ka {
        lemma_prefix_utf8_len_mono(s, ke, ka);
    }
    let lsub = line_chars_of(s, line);
    lemma_prefix_utf8_len_subrange(s, ka, ke, ke - ka);
    lemma_prefix_utf16_len_subrange(s, ka, ke, ke - ka);
}

} // verus!
