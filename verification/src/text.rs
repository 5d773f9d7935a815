//! Character-sequence utilities: whitespace classification, trimming and
//! splitting, shared by the grid parser, the config parser and the command
//! tokenizer.

use vstd::prelude::*;

verus! {

/// The characters with the Unicode `White_Space` property, the set that
/// `str::trim` removes from both ends of a string.
pub open spec fn is_space(c: char) -> bool {
    c == ' ' || c == '\t' || c == '\n' || c == '\u{b}' || c == '\u{c}' || c == '\r'
        || c == '\u{85}' || c == '\u{a0}' || c == '\u{1680}' || c == '\u{2000}'
        || c == '\u{2001}' || c == '\u{2002}' || c == '\u{2003}' || c == '\u{2004}'
        || c == '\u{2005}' || c == '\u{2006}' || c == '\u{2007}' || c == '\u{2008}'
        || c == '\u{2009}' || c == '\u{200a}' || c == '\u{2028}' || c == '\u{2029}'
        || c == '\u{202f}' || c == '\u{205f}' || c == '\u{3000}'
}

/// Decide whether a character is whitespace.
pub fn char_is_space(c: char) -> (r: bool)
    ensures
        r == is_space(c),
{
    c == ' ' || c == '\t' || c == '\n' || c == '\u{b}' || c == '\u{c}' || c == '\r'
        || c == '\u{85}' || c == '\u{a0}' || c == '\u{1680}' || c == '\u{2000}'
        || c == '\u{2001}' || c == '\u{2002}' || c == '\u{2003}' || c == '\u{2004}'
        || c == '\u{2005}' || c == '\u{2006}' || c == '\u{2007}' || c == '\u{2008}'
        || c == '\u{2009}' || c == '\u{200a}' || c == '\u{2028}' || c == '\u{2029}'
        || c == '\u{202f}' || c == '\u{205f}' || c == '\u{3000}'
}

/// Collect the characters of a string slice into a vector.
pub fn str_chars(s: &str) -> (r: Vec<char>)
    ensures
        r@ == s@,
{
    let n: usize = s.unicode_len();
    let mut r: Vec<char> = Vec::new();
    let mut i: usize = 0;
    while i < n
        invariant
            i <= n,
            n == s@.len(),
            r@ == s@.take(i as int),
        decreases n - i,
    {
        r.push(s.get_char(i));
        i += 1;
        assert(r@ =~= s@.take(i as int));
    }
    assert(r@ =~= s@);
    r
}

/// Relies on `String::push`: appends the given character to the end of the
/// string, so the new contents are the old contents followed by that character.
pub assume_specification[ String::push ](s: &mut String, c: char)
    ensures
        final(s)@ == old(s)@.push(c),
;

/// Build an owned string out of a vector of characters.
pub fn string_from_chars(v: &Vec<char>) -> (r: String)
    ensures
        r@ == v@,
{
    let mut r: String = String::new();
    let mut i: usize = 0;
    while i < v.len()
        invariant
            i <= v@.len(),
            r@ == v@.take(i as int),
        decreases v@.len() - i,
    {
        r.push(v[i]);
        i += 1;
        assert(r@ =~= v@.take(i as int));
    }
    assert(r@ =~= v@);
    r
}

/// Decide whether two string slices hold the same characters.
pub fn str_eq(a: &str, b: &str) -> (r: bool)
    ensures
        r == (a@ == b@),
{
    let na: usize = a.unicode_len();
    let nb: usize = b.unicode_len();
    if na != nb {
        return false;
    }
    let mut i: usize = 0;
    while i < na
        invariant
            i <= na,
            na == a@.len(),
            na == b@.len(),
            forall|j: int| 0 <= j < i ==> a@[j] == b@[j],
        decreases na - i,
    {
        if a.get_char(i) != b.get_char(i) {
            return false;
        }
        i += 1;
    }
    assert(a@ =~= b@);
    true
}

/// The sequence with leading whitespace removed.
pub open spec fn trim_front(s: Seq<char>) -> Seq<char>
    decreases s.len(),
{
    if s.len() > 0 && is_space(s[0]) {
        trim_front(s.drop_first())
    } else {
        s
    }
}

/// The sequence with trailing whitespace removed.
pub open spec fn trim_back(s: Seq<char>) -> Seq<char>
    decreases s.len(),
{
    if s.len() > 0 && is_space(s.last()) {
        trim_back(s.drop_last())
    } else {
        s
    }
}

/// The sequence with whitespace removed from both ends, as `str::trim` does.
pub open spec fn trim_seq(s: Seq<char>) -> Seq<char> {
    trim_back(trim_front(s))
}

/// Trim whitespace from both ends of a character vector.
pub fn trim_chars(v: &Vec<char>) -> (r: Vec<char>)
    ensures
        r@ == trim_seq(v@),
{
    let n: usize = v.len();
    assert(v@.skip(0) =~= v@);
    let mut lo: usize = 0;
    while lo < n && char_is_space(v[lo])
        invariant
            lo <= n,
            n == v@.len(),
            trim_front(v@) == trim_front(v@.skip(lo as int)),
        decreases n - lo,
    {
        assert(v@.skip(lo as int).drop_first() =~= v@.skip(lo as int + 1));
        lo += 1;
    }
    assert(trim_front(v@) == v@.skip(lo as int));
    let mut hi: usize = n;
    while hi > lo && char_is_space(v[hi - 1])
        invariant
            lo <= hi <= n,
            n == v@.len(),
            trim_front(v@) == v@.skip(lo as int),
            trim_back(v@.skip(lo as int)) == trim_back(v@.subrange(lo as int, hi as int)),
        decreases hi,
    {
        assert(v@.subrange(lo as int, hi as int).drop_last() =~= v@.subrange(
            lo as int,
            hi as int - 1,
        ));
        hi -= 1;
    }
    assert(trim_seq(v@) == v@.subrange(lo as int, hi as int));
    let mut r: Vec<char> = Vec::new();
    let mut j: usize = lo;
    while j < hi
        invariant
            lo <= j <= hi <= n,
            n == v@.len(),
            r@ == v@.subrange(lo as int, j as int),
        decreases hi - j,
    {
        r.push(v[j]);
        j += 1;
        assert(r@ =~= v@.subrange(lo as int, j as int));
    }
    assert(r@ =~= v@.subrange(lo as int, hi as int));
    r
}

/// A text padded with spaces, or cut, to exactly `w` characters, as one
/// cell is shown in a fixed-width column.
pub open spec fn padded_text(s: Seq<char>, w: nat) -> Seq<char> {
    Seq::new(
        w,
        |i: int| if i < s.len() {
            s[i]
        } else {
            ' '
        },
    )
}

/// Format the inner contents of a cell to a fixed width.
pub fn fmt_string_padding(instr: &str, maxwidth: usize) -> (r: String)
    ensures
        r@ == padded_text(instr@, maxwidth as nat),
{
    let n: usize = instr.unicode_len();
    let mut out: Vec<char> = Vec::new();
    let mut i: usize = 0;
    while i < maxwidth
        invariant
            i <= maxwidth,
            n == instr@.len(),
            out@ == padded_text(instr@, i as nat),
        decreases maxwidth - i,
    {
        if i >= n {
            out.push(' ');
        } else {
            out.push(instr.get_char(i));
        }
        i += 1;
        assert(out@ =~= padded_text(instr@, i as nat));
    }
    string_from_chars(&out)
}

/// Line endings normalized: each `\r\n` pair and each lone `\r` becomes a
/// single `\n`.
pub open spec fn normalize_newlines(s: Seq<char>) -> Seq<char>
    decreases s.len(),
{
    if s.len() == 0 {
        Seq::empty()
    } else if s[0] == '\r' && s.len() >= 2 && s[1] == '\n' {
        seq!['\n'] + normalize_newlines(s.skip(2))
    } else if s[0] == '\r' {
        seq!['\n'] + normalize_newlines(s.skip(1))
    } else {
        seq![s[0]] + normalize_newlines(s.skip(1))
    }
}

/// Normalize the line endings of a string.
pub fn normalize_newlines_str(s: &str) -> (r: String)
    ensures
        r@ == normalize_newlines(s@),
{
    let v = str_chars(s);
    let n: usize = v.len();
    assert(v@.skip(0) =~= v@);
    let mut out: Vec<char> = Vec::new();
    let mut i: usize = 0;
    while i < n
        invariant
            i <= n,
            n == v@.len(),
            v@ == s@,
            normalize_newlines(s@) == out@ + normalize_newlines(s@.skip(i as int)),
        decreases n - i,
    {
        let ghost rest = s@.skip(i as int);
        proof {
            assert(rest[0] == s@[i as int]);
            if rest.len() >= 2 {
                assert(rest[1] == s@[i as int + 1]);
            }
        }
        if v[i] == '\r' {
            out.push('\n');
            if i + 1 < n && v[i + 1] == '\n' {
                proof {
                    assert(rest.skip(2) =~= s@.skip(i as int + 2));
                }
                i += 2;
            } else {
                proof {
                    assert(rest.skip(1) =~= s@.skip(i as int + 1));
                }
                i += 1;
            }
        } else {
            out.push(v[i]);
            proof {
                assert(rest.skip(1) =~= s@.skip(i as int + 1));
            }
            i += 1;
        }
    }
    string_from_chars(&out)
}

/// The pieces of `s` between occurrences of the separator, in order, as
/// `str::split` with a single-character pattern yields them: always at least
/// one piece, and an empty piece between two adjacent separators.
pub open spec fn split_seq(s: Seq<char>, sep: char) -> Seq<Seq<char>>
    decreases s.len(),
{
    if s.len() == 0 {
        seq![Seq::<char>::empty()]
    } else if s[0] == sep {
        seq![Seq::<char>::empty()] + split_seq(s.drop_first(), sep)
    } else {
        let rest = split_seq(s.drop_first(), sep);
        seq![seq![s[0]] + rest[0]] + rest.drop_first()
    }
}

pub proof fn lemma_split_len(s: Seq<char>, sep: char)
    ensures
        split_seq(s, sep).len() >= 1,
    decreases s.len(),
{
    if s.len() == 0 {
    } else {
        lemma_split_len(s.drop_first(), sep);
    }
}

/// Splitting a sequence whose first separator stands at index `k` yields the
/// prefix before it, then the pieces of what follows it.
pub proof fn lemma_split_at_sep(s: Seq<char>, sep: char, k: int)
    requires
        0 <= k < s.len(),
        s[k] == sep,
        forall|j: int| 0 <= j < k ==> s[j] != sep,
    ensures
        split_seq(s, sep) == seq![s.take(k)] + split_seq(s.skip(k + 1), sep),
    decreases k,
{
    if k == 0 {
        assert(s.take(0) =~= Seq::<char>::empty());
        assert(s.drop_first() =~= s.skip(1));
    } else {
        let t = s.drop_first();
        lemma_split_at_sep(t, sep, k - 1);
        let rest = split_seq(t, sep);
        lemma_split_len(t.skip(k), sep);
        assert(rest[0] == t.take(k - 1));
        assert(seq![s[0]] + t.take(k - 1) =~= s.take(k));
        assert(t.skip(k) =~= s.skip(k + 1));
        assert(rest.drop_first() == split_seq(s.skip(k + 1), sep));
        assert(seq![seq![s[0]] + rest[0]] + rest.drop_first() =~= seq![s.take(k)] + split_seq(
            s.skip(k + 1),
            sep,
        ));
    }
}

/// Splitting a sequence without the separator yields that sequence alone.
pub proof fn lemma_split_no_sep(s: Seq<char>, sep: char)
    requires
        forall|j: int| 0 <= j < s.len() ==> s[j] != sep,
    ensures
        split_seq(s, sep) == seq![s],
    decreases s.len(),
{
    if s.len() == 0 {
        assert(split_seq(s, sep) =~~= seq![s]);
    } else {
        lemma_split_no_sep(s.drop_first(), sep);
        assert(seq![s[0]] + s.drop_first() =~= s);
        assert(split_seq(s, sep) =~~= seq![s]);
    }
}

/// Split a character vector on a separator character.
pub fn split_chars(v: &Vec<char>, sep: char) -> (r: Vec<Vec<char>>)
    ensures
        r.deep_view() == split_seq(v@, sep),
        r@.len() >= 1,
{
    let n: usize = v.len();
    assert(v@.skip(0) =~= v@);
    let mut r: Vec<Vec<char>> = Vec::new();
    let mut cur: Vec<char> = Vec::new();
    let ghost mut start: int = 0;
    let mut i: usize = 0;
    while i < n
        invariant
            0 <= start <= i <= n,
            n == v@.len(),
            cur@ == v@.subrange(start, i as int),
            forall|j: int| start <= j < i ==> v@[j] != sep,
            split_seq(v@, sep) == r.deep_view() + split_seq(v@.skip(start), sep),
        decreases n - i,
    {
        if v[i] == sep {
            proof {
                lemma_split_at_sep(v@.skip(start), sep, i - start);
                assert(v@.skip(start).take(i - start) =~= v@.subrange(start, i as int));
                assert(v@.skip(start).skip(i - start + 1) =~= v@.skip(i + 1));
            }
            r.push(cur);
            proof {
                assert(r.deep_view() =~~= r.deep_view().drop_last().push(cur@));
                assert(split_seq(v@, sep) =~~= r.deep_view() + split_seq(v@.skip(i + 1), sep));
            }
            cur = Vec::new();
            proof {
                start = i as int + 1;
            }
        } else {
            cur.push(v[i]);
        }
        i += 1;
        assert(cur@ =~= v@.subrange(start, i as int));
    }
    proof {
        lemma_split_no_sep(v@.skip(start), sep);
        assert(v@.subrange(start, n as int) =~= v@.skip(start));
    }
    r.push(cur);
    proof {
        assert(r.deep_view() =~~= r.deep_view().drop_last().push(cur@));
        assert(r.deep_view() =~~= split_seq(v@, sep));
        lemma_split_len(v@, sep);
    }
    r
}

} // verus!
