//! Text as sequences of characters: lines, fields, prefixes.

use vstd::prelude::*;
#[allow(unused_imports)]
use vstd::string::*;

verus! {

/// The characters of a text.
pub fn chars_of(s: &str) -> (v: Vec<char>)
    ensures
        v@ == s@,
{
    let n: usize = s.unicode_len();
    let mut v: Vec<char> = Vec::new();
    let mut i: usize = 0;
    while i < n
        invariant
            i <= n,
            n == s@.len(),
            v@ == s@.take(i as int),
        decreases n - i,
    {
        v.push(s.get_char(i));
        assert(v@ =~= s@.take(i + 1));
        i = i + 1;
    }
    assert(s@.take(n as int) =~= s@);
    v
}

/// Whether two sequences of characters are the same.
pub fn same_chars(a: &Vec<char>, b: &Vec<char>) -> (r: bool)
    ensures
        r == (a@ == b@),
{
    if a.len() != b.len() {
        return false;
    }
    let mut i: usize = 0;
    while i < a.len()
        invariant
            i <= a@.len(),
            a@.len() == b@.len(),
            forall|k: int| 0 <= k < i ==> a@[k] == b@[k],
        decreases a@.len() - i,
    {
        if a[i] != b[i] {
            return false;
        }
        i = i + 1;
    }
    assert(a@ =~= b@);
    true
}

/// Whether a text starts with `prefix`.
pub fn starts_with(s: &Vec<char>, prefix: &str) -> (r: bool)
    ensures
        r == prefix@.is_prefix_of(s@),
{
    let p = chars_of(prefix);
    if s.len() < p.len() {
        return false;
    }
    let mut i: usize = 0;
    while i < p.len()
        invariant
            i <= p@.len() <= s@.len(),
            p@ == prefix@,
            forall|k: int| 0 <= k < i ==> s@[k] == p@[k],
        decreases p@.len() - i,
    {
        if s[i] != p[i] {
            assert(s@.subrange(0, p@.len() as int)[i as int] == s@[i as int]);
            return false;
        }
        i = i + 1;
    }
    assert(prefix@ =~= s@.subrange(0, prefix@.len() as int));
    true
}

/// Whether a character separates fields.
pub open spec fn whitespace(c: char) -> bool {
    ||| 0x09 <= c as u32 <= 0x0d
    ||| c as u32 == 0x20
    ||| c as u32 == 0x85
    ||| c as u32 == 0xa0
    ||| c as u32 == 0x1680
    ||| 0x2000 <= c as u32 <= 0x200a
    ||| c as u32 == 0x2028
    ||| c as u32 == 0x2029
    ||| c as u32 == 0x202f
    ||| c as u32 == 0x205f
    ||| c as u32 == 0x3000
}

fn is_whitespace(c: char) -> (r: bool)
    ensures
        r == whitespace(c),
{
    let u: u32 = c as u32;
    (0x09 <= u && u <= 0x0d) || u == 0x20 || u == 0x85 || u == 0xa0 || u == 0x1680 || (0x2000 <= u
        && u <= 0x200a) || u == 0x2028 || u == 0x2029 || u == 0x202f || u == 0x205f || u == 0x3000
}

/// The length of what comes before the first line end; of all, if there is none.
pub open spec fn line_len(s: Seq<char>) -> nat
    decreases s.len(),
{
    if s.len() == 0 || s[0] == '\n' {
        0
    } else {
        1 + line_len(s.skip(1))
    }
}

/// The length of the whitespace that a text starts with.
pub open spec fn gap_len(s: Seq<char>) -> nat
    decreases s.len(),
{
    if s.len() == 0 || !whitespace(s[0]) {
        0
    } else {
        1 + gap_len(s.skip(1))
    }
}

/// The length of what comes before the first whitespace.
pub open spec fn word_len(s: Seq<char>) -> nat
    decreases s.len(),
{
    if s.len() == 0 || whitespace(s[0]) {
        0
    } else {
        1 + word_len(s.skip(1))
    }
}

/// The lines of a text.
pub open spec fn lines_of(s: Seq<char>) -> Seq<Seq<char>>
    decreases s.len(),
{
    if s.len() == 0 {
        Seq::empty()
    } else {
        let n = line_len(s) as int;
        if n < s.len() {
            seq![s.take(n)] + lines_of(s.skip(n + 1))
        } else {
            seq![s]
        }
    }
}

/// The fields of a line: what stands between whitespace.
pub open spec fn fields_of(s: Seq<char>) -> Seq<Seq<char>>
    decreases s.len(),
{
    let t = s.skip(gap_len(s) as int);
    let n = word_len(t) as int;
    if gap_len(s) >= s.len() || n == 0 || n > t.len() {
        Seq::empty()
    } else {
        seq![t.take(n)] + fields_of(t.skip(n))
    }
}

/// The values of a list of texts.
pub open spec fn char_views(v: Seq<Vec<char>>) -> Seq<Seq<char>> {
    v.map_values(|x: Vec<char>| x@)
}

fn copy_chars(s: &Vec<char>, from: usize, to: usize) -> (out: Vec<char>)
    requires
        from <= to <= s@.len(),
    ensures
        out@ == s@.subrange(from as int, to as int),
{
    let mut out: Vec<char> = Vec::new();
    let mut i: usize = from;
    while i < to
        invariant
            from <= i <= to <= s@.len(),
            out@ == s@.subrange(from as int, i as int),
        decreases to - i,
    {
        out.push(s[i]);
        assert(out@ =~= s@.subrange(from as int, i + 1));
        i = i + 1;
    }
    out
}

/// Splits a text into lines.
pub fn split_lines(s: &Vec<char>) -> (out: Vec<Vec<char>>)
    ensures
        char_views(out@) == lines_of(s@),
{
    let n: usize = s.len();
    let mut out: Vec<Vec<char>> = Vec::new();
    let mut pos: usize = 0;
    proof {
        assert(s@.skip(0) =~= s@);
        assert(char_views(out@) + lines_of(s@) =~= lines_of(s@));
    }
    while pos < n
        invariant
            pos <= n,
            n == s@.len(),
            char_views(out@) + lines_of(s@.skip(pos as int)) == lines_of(s@),
        decreases n - pos,
    {
        let ghost t = s@.skip(pos as int);
        let mut end: usize = pos;
        assert(s@.skip(end as int) == t);
        while end < n && s[end] != '\n'
            invariant
                pos <= end <= n,
                n == s@.len(),
                t == s@.skip(pos as int),
                line_len(t) == (end - pos) + line_len(s@.skip(end as int)),
            decreases n - end,
        {
            assert(s@.skip(end as int).skip(1) =~= s@.skip(end + 1));
            end = end + 1;
        }
        let ghost k = end - pos;
        proof {
            assert(line_len(s@.skip(end as int)) == 0);
            assert(line_len(t) == k);
        }
        let line = copy_chars(s, pos, end);
        let ghost before = char_views(out@);
        proof {
            assert(line@ =~= t.take(k));
        }
        out.push(line);
        proof {
            assert(char_views(out@) =~= before.push(t.take(k)));
            if end < n {
                assert(t.skip(k + 1) =~= s@.skip(end + 1));
                assert(char_views(out@) + lines_of(s@.skip(end + 1)) =~= before + lines_of(t));
            } else {
                assert(t.take(k) =~= t);
                assert(s@.skip(n as int) =~= Seq::<char>::empty());
                assert(char_views(out@) + lines_of(s@.skip(n as int)) =~= before + lines_of(t));
            }
        }
        if end < n {
            pos = end + 1;
        } else {
            pos = n;
        }
    }
    proof {
        assert(s@.skip(pos as int) =~= Seq::<char>::empty());
        assert(char_views(out@) + lines_of(s@.skip(pos as int)) =~= char_views(out@));
    }
    out
}

/// Splits a line into fields.
pub fn split_fields(s: &Vec<char>) -> (out: Vec<Vec<char>>)
    ensures
        char_views(out@) == fields_of(s@),
{
    let n: usize = s.len();
    let mut out: Vec<Vec<char>> = Vec::new();
    let mut pos: usize = 0;
    proof {
        assert(s@.skip(0) =~= s@);
        assert(char_views(out@) + fields_of(s@) =~= fields_of(s@));
    }
    while pos < n
        invariant
            pos <= n,
            n == s@.len(),
            char_views(out@) + fields_of(s@.skip(pos as int)) == fields_of(s@),
        decreases n - pos,
    {
        let ghost rest = s@.skip(pos as int);
        let mut start: usize = pos;
        while start < n && is_whitespace(s[start])
            invariant
                pos <= start <= n,
                n == s@.len(),
                rest == s@.skip(pos as int),
                gap_len(rest) == (start - pos) + gap_len(s@.skip(start as int)),
            decreases n - start,
        {
            assert(s@.skip(start as int).skip(1) =~= s@.skip(start + 1));
            start = start + 1;
        }
        let ghost t = s@.skip(start as int);
        proof {
            assert(gap_len(t) == 0);
            assert(rest.skip(gap_len(rest) as int) =~= t);
        }
        if start == n {
            proof {
                assert(fields_of(rest) =~= Seq::<Seq<char>>::empty());
                assert(char_views(out@) + fields_of(rest) =~= char_views(out@));
            }
            return out;
        }
        let mut end: usize = start;
        while end < n && !is_whitespace(s[end])
            invariant
                start <= end <= n,
                n == s@.len(),
                t == s@.skip(start as int),
                word_len(t) == (end - start) + word_len(s@.skip(end as int)),
            decreases n - end,
        {
            assert(s@.skip(end as int).skip(1) =~= s@.skip(end + 1));
            end = end + 1;
        }
        let ghost k = end - start;
        proof {
            assert(word_len(s@.skip(end as int)) == 0);
            assert(word_len(t) == k);
            assert(k > 0);
        }
        let word = copy_chars(s, start, end);
        let ghost before = char_views(out@);
        assert(word@ =~= t.take(k));
        out.push(word);
        proof {
            assert(char_views(out@) =~= before.push(t.take(k)));
            assert(t.skip(k) =~= s@.skip(end as int));
            assert(char_views(out@) + fields_of(s@.skip(end as int)) =~= before + fields_of(rest));
        }
        pos = end;
    }
    proof {
        assert(s@.skip(pos as int) =~= Seq::<char>::empty());
        assert(char_views(out@) + fields_of(s@.skip(pos as int)) =~= char_views(out@));
    }
    out
}

/// What separates fields: the characters from tab to carriage return, the space, and the other
/// spaces and line ends of Unicode.
pub proof fn law_whitespace_exact(c: char)
    ensures
        whitespace(c) <==> ({
            let u = c as u32;
            ||| u == 9 || u == 10 || u == 11 || u == 12 || u == 13 || u == 32
            ||| u == 133 || u == 160 || u == 5760 || u == 8232 || u == 8233
            ||| 8192 <= u <= 8202 || u == 8239 || u == 8287 || u == 12288
        }),
{
}

proof fn lemma_line_len(a: Seq<char>, rest: Seq<char>)
    requires
        !a.contains('\n'),
        rest.len() == 0 || rest[0] == '\n',
    ensures
        line_len(a + rest) == a.len(),
    decreases a.len(),
{
    let s = a + rest;
    if a.len() > 0 {
        assert(a[0] != '\n') by {
            assert(a.contains(a[0]));
        }
        assert(s.skip(1) =~= a.skip(1) + rest);
        assert(!a.skip(1).contains('\n')) by {
            if a.skip(1).contains('\n') {
                let i = choose|i: int| 0 <= i < a.skip(1).len() && a.skip(1)[i] == '\n';
                assert(a[i + 1] == '\n');
            }
        }
        lemma_line_len(a.skip(1), rest);
    } else {
        assert(s =~= rest);
    }
}

/// What stands before the first line end is the first line, and what follows the line end has the
/// other lines. Text without a line end is one line, and no text has no line.
pub proof fn law_lines_end_at_line_ends(a: Seq<char>, rest: Seq<char>)
    requires
        !a.contains('\n'),
    ensures
        lines_of(a + seq!['\n'] + rest) == seq![a] + lines_of(rest),
        a.len() > 0 ==> lines_of(a) == seq![a],
        lines_of(Seq::<char>::empty()) == Seq::<Seq<char>>::empty(),
{
    let s = a + seq!['\n'] + rest;
    lemma_line_len(a, seq!['\n'] + rest);
    assert(s =~= a + (seq!['\n'] + rest));
    assert(s.take(a.len() as int) =~= a);
    assert(s.skip(a.len() as int + 1) =~= rest);
    lemma_line_len(a, Seq::empty());
    assert(a + Seq::<char>::empty() =~= a);
}

proof fn lemma_gap_len(gap: Seq<char>, rest: Seq<char>)
    requires
        forall|i: int| 0 <= i < gap.len() ==> whitespace(#[trigger] gap[i]),
        rest.len() == 0 || !whitespace(rest[0]),
    ensures
        gap_len(gap + rest) == gap.len(),
    decreases gap.len(),
{
    let s = gap + rest;
    if gap.len() > 0 {
        assert(s[0] == gap[0]);
        assert(s.skip(1) =~= gap.skip(1) + rest);
        assert forall|i: int| 0 <= i < gap.skip(1).len() implies whitespace(
            #[trigger] gap.skip(1)[i],
        ) by {
            assert(gap.skip(1)[i] == gap[i + 1]);
        }
        lemma_gap_len(gap.skip(1), rest);
    } else {
        assert(s =~= rest);
    }
}

proof fn lemma_word_len(word: Seq<char>, rest: Seq<char>)
    requires
        forall|i: int| 0 <= i < word.len() ==> !whitespace(#[trigger] word[i]),
        rest.len() == 0 || whitespace(rest[0]),
    ensures
        word_len(word + rest) == word.len(),
    decreases word.len(),
{
    let s = word + rest;
    if word.len() > 0 {
        assert(s[0] == word[0]);
        assert(s.skip(1) =~= word.skip(1) + rest);
        assert forall|i: int| 0 <= i < word.skip(1).len() implies !whitespace(
            #[trigger] word.skip(1)[i],
        ) by {
            assert(word.skip(1)[i] == word[i + 1]);
        }
        lemma_word_len(word.skip(1), rest);
    } else {
        assert(s =~= rest);
    }
}

/// A word with whitespace before it, or none, and whitespace after it, or nothing, is the first
/// field, and what follows has the other fields. Whitespace alone has no field.
pub proof fn law_fields_end_at_whitespace(gap: Seq<char>, word: Seq<char>, rest: Seq<char>)
    requires
        forall|i: int| 0 <= i < gap.len() ==> whitespace(#[trigger] gap[i]),
        forall|i: int| 0 <= i < word.len() ==> !whitespace(#[trigger] word[i]),
        word.len() > 0,
        rest.len() == 0 || whitespace(rest[0]),
    ensures
        fields_of(gap + word + rest) == seq![word] + fields_of(rest),
        fields_of(gap) == Seq::<Seq<char>>::empty(),
{
    let s = gap + word + rest;
    assert(s =~= gap + (word + rest));
    assert((word + rest)[0] == word[0]);
    lemma_gap_len(gap, word + rest);
    let t = s.skip(gap.len() as int);
    assert(t =~= word + rest);
    lemma_word_len(word, rest);
    assert(t.take(word.len() as int) =~= word);
    assert(t.skip(word.len() as int) =~= rest);
    lemma_gap_len(gap, Seq::empty());
    assert(gap + Seq::<char>::empty() =~= gap);
}

/// The value of a list of texts has one for each of them, in order.
pub proof fn law_text_values(v: Seq<Vec<char>>, i: int)
    requires
        0 <= i < v.len(),
    ensures
        char_views(v).len() == v.len(),
        char_views(v)[i] == v[i]@,
{
}

} // verus!
