//! Text handling with std's meaning written out: white space as
//! `char::is_whitespace` defines it, trimming, and comma-separated lists.

use vstd::prelude::*;

verus! {

/// `c` has the Unicode White_Space property (what `char::is_whitespace`
/// tests).
pub open spec fn is_white(c: char) -> bool {
    ||| ('\u{9}' <= c && c <= '\u{d}')
    ||| c == ' '
    ||| c == '\u{85}'
    ||| c == '\u{a0}'
    ||| c == '\u{1680}'
    ||| ('\u{2000}' <= c && c <= '\u{200a}')
    ||| c == '\u{2028}'
    ||| c == '\u{2029}'
    ||| c == '\u{202f}'
    ||| c == '\u{205f}'
    ||| c == '\u{3000}'
}

/// Whether `c` is white space.
pub fn is_white_char(c: char) -> (r: bool)
    ensures
        r == is_white(c),
{
    ('\u{9}' <= c && c <= '\u{d}') || c == ' ' || c == '\u{85}' || c == '\u{a0}' || c == '\u{1680}'
        || ('\u{2000}' <= c && c <= '\u{200a}') || c == '\u{2028}' || c == '\u{2029}' || c == '\u{202f}'
        || c == '\u{205f}' || c == '\u{3000}'
}

/// `s` without its leading white space.
pub open spec fn trim_start(s: Seq<char>) -> Seq<char>
    decreases s.len(),
{
    if s.len() > 0 && is_white(s[0]) {
        trim_start(s.drop_first())
    } else {
        s
    }
}

/// `s` without its trailing white space.
pub open spec fn trim_end(s: Seq<char>) -> Seq<char>
    decreases s.len(),
{
    if s.len() > 0 && is_white(s.last()) {
        trim_end(s.drop_last())
    } else {
        s
    }
}

/// `s` without leading and trailing white space.
pub open spec fn trimmed(s: Seq<char>) -> Seq<char> {
    trim_end(trim_start(s))
}

/// `s` without leading and trailing white space.
pub fn trim(s: &str) -> (r: &str)
    ensures
        r@ == trimmed(s@),
{
    let n = s.unicode_len();
    let mut a: usize = 0;
    assert(s@.subrange(0, n as int) =~= s@);
    while a < n && is_white_char(s.get_char(a))
        invariant
            a <= n,
            n == s@.len(),
            trim_start(s@.subrange(a as int, n as int)) == trim_start(s@),
        decreases n - a,
    {
        assert(s@.subrange(a + 1, n as int) =~= s@.subrange(a as int, n as int).drop_first());
        a = a + 1;
    }
    assert(s@.subrange(0, n as int) =~= s@);
    let mut b: usize = n;
    while b > a && is_white_char(s.get_char(b - 1))
        invariant
            a <= b <= n,
            n == s@.len(),
            trim_end(s@.subrange(a as int, b as int)) == trimmed(s@),
        decreases b - a,
    {
        assert(s@.subrange(a as int, b - 1) =~= s@.subrange(a as int, b as int).drop_last());
        b = b - 1;
    }
    s.substring_char(a, b)
}

/// The pieces of `s` between its commas, in order (one piece, possibly
/// empty, more than there are commas).
pub open spec fn split_commas(s: Seq<char>) -> Seq<Seq<char>>
    decreases s.len(),
{
    if s.len() == 0 {
        seq![Seq::empty()]
    } else {
        let p = split_commas(s.drop_last());
        if s.last() == ',' {
            p.push(Seq::empty())
        } else {
            p.update(p.len() - 1, p.last().push(s.last()))
        }
    }
}

/// There is always a piece.
pub proof fn lemma_split_nonempty(s: Seq<char>)
    ensures
        split_commas(s).len() >= 1,
    decreases s.len(),
{
    if s.len() > 0 {
        lemma_split_nonempty(s.drop_last());
    }
}

/// Not empty.
pub open spec fn nonempty_text() -> spec_fn(Seq<char>) -> bool {
    |p: Seq<char>| p.len() > 0
}

/// The trimmed pieces of `trimmed` list of `raw`.
pub open spec fn trimmed_all(raw: Seq<Seq<char>>) -> Seq<Seq<char>> {
    raw.map_values(|p: Seq<char>| trimmed(p))
}

/// The entries of a comma-separated list: its pieces trimmed, the empty
/// ones left out.
pub open spec fn list_entries(s: Seq<char>) -> Seq<Seq<char>> {
    trimmed_all(split_commas(s)).filter(nonempty_text())
}

proof fn lemma_entries_push(raw: Seq<Seq<char>>, p: Seq<char>)
    ensures
        trimmed_all(raw.push(p)).filter(nonempty_text()) == if trimmed(p).len() > 0 {
            trimmed_all(raw).filter(nonempty_text()).push(trimmed(p))
        } else {
            trimmed_all(raw).filter(nonempty_text())
        },
{
    reveal(Seq::filter);
    let t = trimmed_all(raw.push(p));
    assert(t.drop_last() =~= trimmed_all(raw));
    assert(t.last() == trimmed(p));
}

/// The entries of the comma-separated list `s`.
pub fn list_entries_of(s: &str) -> (r: Vec<String>)
    ensures
        r@.map_values(|x: String| x@) == list_entries(s@),
{
    let n = s.unicode_len();
    let mut out: Vec<String> = Vec::new();
    let ghost mut raw: Seq<Seq<char>> = Seq::empty();
    let mut start: usize = 0;
    let mut i: usize = 0;
    assert(s@.subrange(0, 0) =~= Seq::<char>::empty());
    assert(raw.push(s@.subrange(0, 0)) =~= seq![Seq::<char>::empty()]);
    assert(trimmed_all(raw) =~= Seq::<Seq<char>>::empty());
    proof {
        reveal(Seq::filter);
    }
    assert(out@.map_values(|x: String| x@) =~= trimmed_all(raw).filter(nonempty_text()));
    while i < n
        invariant
            n == s@.len(),
            start <= i <= n,
            split_commas(s@.subrange(0, i as int)) == raw.push(s@.subrange(start as int, i as int)),
            out@.map_values(|x: String| x@) == trimmed_all(raw).filter(nonempty_text()),
        decreases n - i,
    {
        proof {
            let t = s@.subrange(0, i + 1);
            assert(t.drop_last() =~= s@.subrange(0, i as int));
            assert(t.last() == s@[i as int]);
        }
        if s.get_char(i) == ',' {
            let piece = s.substring_char(start, i);
            let entry = trim(piece);
            let ghost before = out@;
            proof {
                lemma_entries_push(raw, piece@);
            }
            if entry.unicode_len() > 0 {
                out.push(entry.to_owned());
                assert(out@.map_values(|x: String| x@) =~= before.map_values(|x: String| x@).push(entry@));
            }
            proof {
                raw = raw.push(piece@);
                assert(s@.subrange(i + 1, i + 1) =~= Seq::<char>::empty());
            }
            start = i + 1;
        } else {
            proof {
                assert(s@.subrange(start as int, i + 1) =~= s@.subrange(start as int, i as int).push(s@[i as int]));
                assert(raw.push(s@.subrange(start as int, i as int)).update(raw.len() as int, s@.subrange(start as int, i + 1))
                    =~= raw.push(s@.subrange(start as int, i + 1)));
            }
        }
        i = i + 1;
    }
    let piece = s.substring_char(start, n);
    let entry = trim(piece);
    let ghost before = out@;
    proof {
        lemma_entries_push(raw, piece@);
        assert(s@.subrange(0, n as int) =~= s@);
    }
    if entry.unicode_len() > 0 {
        out.push(entry.to_owned());
        assert(out@.map_values(|x: String| x@) =~= before.map_values(|x: String| x@).push(entry@));
    }
    out
}

} // verus!
