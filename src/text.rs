//! Character-level helpers: splitting on a separator, reading one line, and
//! keeping only the ASCII part of a text.

use vstd::prelude::*;

verus! {

/// The characters of `s`, in order.
pub fn chars_of(s: &str) -> (r: Vec<char>)
    ensures
        r@ == s@,
{
    let mut v: Vec<char> = Vec::new();
    for c in it: s.chars()
        invariant
            v@ == it.seq().take(it.index() as int),
    {
        proof {
            assert(it.seq().take(it.index() + 1) =~= it.seq().take(it.index() as int).push(c));
        }
        v.push(c);
    }
    assert(v@ =~= s@);
    v
}

pub open spec fn is_ascii_char(c: char) -> bool {
    (c as u32) < 128
}

/// The ASCII characters of `s`, in order.
pub open spec fn ascii_only(s: Seq<char>) -> Seq<char>
    decreases s.len(),
{
    if s.len() == 0 {
        Seq::empty()
    } else {
        let prev = ascii_only(s.drop_last());
        if is_ascii_char(s.last()) {
            prev.push(s.last())
        } else {
            prev
        }
    }
}

/// The pieces of `s` between occurrences of `sep`: one more piece than there
/// are separators, empty pieces included.
pub open spec fn split_on(s: Seq<char>, sep: char) -> Seq<Seq<char>>
    decreases s.len(),
{
    if s.len() == 0 {
        seq![Seq::<char>::empty()]
    } else {
        let prev = split_on(s.drop_last(), sep);
        if s.last() == sep {
            prev.push(Seq::<char>::empty())
        } else {
            prev.update(prev.len() - 1, prev.last().push(s.last()))
        }
    }
}

pub open spec fn trim_cr(p: Seq<char>) -> Seq<char> {
    if p.len() > 0 && p.last() == '\r' {
        p.drop_last()
    } else {
        p
    }
}

/// Line `k` of `s`: lines end at `\n` or `\r\n`, and a final line ending
/// adds no empty line.
pub open spec fn line_at(s: Seq<char>, k: int) -> Option<Seq<char>> {
    let pieces = split_on(s, '\n');
    if 0 <= k && k + 1 < pieces.len() {
        Some(trim_cr(pieces[k]))
    } else if 0 <= k && k + 1 == pieces.len() && pieces[k].len() > 0 {
        Some(pieces[k])
    } else {
        None
    }
}

pub proof fn lemma_split_len(s: Seq<char>, sep: char)
    ensures
        split_on(s, sep).len() >= 1,
    decreases s.len(),
{
    if s.len() > 0 {
        lemma_split_len(s.drop_last(), sep);
    }
}

/// Pieces that are followed by a separator in a prefix stay as they are in
/// the whole text.
pub proof fn lemma_split_prefix(s: Seq<char>, sep: char, i: int, j: int)
    requires
        0 <= i <= j <= s.len(),
    ensures
        split_on(s.take(j), sep).len() >= split_on(s.take(i), sep).len(),
        forall|m: int|
            0 <= m < split_on(s.take(i), sep).len() - 1 ==> #[trigger] split_on(s.take(j), sep)[m]
                == split_on(s.take(i), sep)[m],
    decreases j - i,
{
    if j > i {
        lemma_split_prefix(s, sep, i, j - 1);
        assert(s.take(j).drop_last() =~= s.take(j - 1));
        lemma_split_len(s.take(j - 1), sep);
    }
}

/// The piece `k` of `s` split on `sep`, and whether it is the last piece.
pub fn nth_field(s: &str, sep: char, k: usize) -> (r: Option<(String, bool)>)
    ensures
        match r {
            Some((v, last)) => k < split_on(s@, sep).len() && v@ == split_on(s@, sep)[k as int]
                && last == (k + 1 == split_on(s@, sep).len()),
            None => k >= split_on(s@, sep).len(),
        },
{
    let chars = chars_of(s);
    let mut count: usize = 0;
    let mut start: usize = 0;
    let mut i: usize = 0;
    proof {
        assert(chars@.take(0) =~= Seq::<char>::empty());
    }
    while i < chars.len()
        invariant
            0 <= i <= chars@.len(),
            chars@ == s@,
            count <= k,
            start <= i,
            split_on(chars@.take(i as int), sep).len() == count + 1,
            count == k ==> chars@.subrange(start as int, i as int) == split_on(
                chars@.take(i as int),
                sep,
            )[k as int],
        decreases chars.len() - i,
    {
        let c = chars[i];
        proof {
            assert(chars@.take(i + 1).drop_last() =~= chars@.take(i as int));
            lemma_split_len(chars@.take(i as int), sep);
        }
        if c == sep {
            if count == k {
                proof {
                    lemma_split_prefix(chars@, sep, i + 1, chars@.len() as int);
                    assert(chars@.take(chars@.len() as int) =~= chars@);
                }
                return Some((s.substring_char(start, i).to_owned(), false));
            }
            count = count + 1;
            start = i + 1;
            proof {
                assert(chars@.subrange(start as int, i + 1) =~= Seq::<char>::empty());
            }
        } else if count == k {
            proof {
                assert(chars@.subrange(start as int, i + 1) =~= chars@.subrange(
                    start as int,
                    i as int,
                ).push(c));
            }
        }
        i = i + 1;
    }
    proof {
        assert(chars@.take(chars@.len() as int) =~= chars@);
    }
    if count == k {
        Some((s.substring_char(start, chars.len()).to_owned(), true))
    } else {
        None
    }
}

/// Line `k` of the text `s` (see `line_at`).
pub fn nth_line(s: &str, k: usize) -> (r: Option<String>)
    ensures
        match r {
            Some(v) => line_at(s@, k as int) == Some(v@),
            None => line_at(s@, k as int) is None,
        },
{
    match nth_field(s, '\n', k) {
        None => None,
        Some((piece, true)) => {
            if piece.as_str().is_empty() {
                None
            } else {
                Some(piece)
            }
        },
        Some((piece, false)) => {
            let chars = chars_of(piece.as_str());
            let n = chars.len();
            if n > 0 && chars[n - 1] == '\r' {
                let trimmed = piece.as_str().substring_char(0, n - 1).to_owned();
                proof {
                    assert(trimmed@ =~= trim_cr(piece@));
                }
                Some(trimmed)
            } else {
                Some(piece)
            }
        },
    }
}

/// Whether `s` ends with `suffix`.
pub open spec fn ends_with(s: Seq<char>, suffix: Seq<char>) -> bool {
    suffix.len() <= s.len() && s.skip(s.len() - suffix.len()) == suffix
}

/// Whether the texts `a` and `b` hold the same characters.
pub fn same_text(a: &str, b: &str) -> (r: bool)
    ensures
        r == (a@ == b@),
{
    let x = chars_of(a);
    let y = chars_of(b);
    if x.len() != y.len() {
        return false;
    }
    let mut i: usize = 0;
    while i < x.len()
        invariant
            0 <= i <= x@.len(),
            x@.len() == y@.len(),
            x@ == a@,
            y@ == b@,
            forall|j: int| 0 <= j < i ==> x@[j] == y@[j],
        decreases x.len() - i,
    {
        if x[i] != y[i] {
            return false;
        }
        i = i + 1;
    }
    assert(x@ =~= y@);
    true
}

/// Whether the text `s` ends with the text `suffix`.
pub fn has_suffix(s: &str, suffix: &str) -> (r: bool)
    ensures
        r == ends_with(s@, suffix@),
{
    let x = chars_of(s);
    let y = chars_of(suffix);
    if y.len() > x.len() {
        return false;
    }
    let off = x.len() - y.len();
    let mut i: usize = 0;
    while i < y.len()
        invariant
            0 <= i <= y@.len(),
            off + y@.len() == x@.len(),
            x@.len() <= usize::MAX,
            x@ == s@,
            y@ == suffix@,
            forall|j: int| 0 <= j < i ==> x@[off + j] == y@[j],
        decreases y.len() - i,
    {
        if x[off + i] != y[i] {
            assert(x@.skip(off as int)[i as int] != y@[i as int]);
            return false;
        }
        i = i + 1;
    }
    assert(x@.skip(off as int) =~= y@);
    true
}

/// Keeps the ASCII characters of `input`, in order, and drops all others.
pub fn remove_non_ascii(input: String) -> (r: String)
    ensures
        r@ == ascii_only(input@),
{
    let text = input.as_str();
    let chars = chars_of(text);
    let mut out = String::new();
    let mut run: usize = 0;
    let mut i: usize = 0;
    proof {
        assert(chars@.take(0) =~= Seq::<char>::empty());
        assert(out@ + chars@.subrange(0, 0) =~= Seq::<char>::empty());
    }
    while i < chars.len()
        invariant
            0 <= run <= i <= chars@.len(),
            chars@ == input@,
            text@ == input@,
            out@ + chars@.subrange(run as int, i as int) == ascii_only(chars@.take(i as int)),
        decreases chars.len() - i,
    {
        let c = chars[i];
        proof {
            assert(chars@.take(i + 1).drop_last() =~= chars@.take(i as int));
        }
        if (c as u32) < 128 {
            proof {
                assert(out@ + chars@.subrange(run as int, i + 1) =~= (out@ + chars@.subrange(
                    run as int,
                    i as int,
                )).push(c));
            }
        } else {
            out.append(text.substring_char(run, i));
            run = i + 1;
            proof {
                assert(out@ + chars@.subrange(run as int, i + 1) =~= out@);
            }
        }
        i = i + 1;
    }
    out.append(text.substring_char(run, chars.len()));
    proof {
        assert(chars@.take(chars@.len() as int) =~= chars@);
    }
    out
}

} // verus!
