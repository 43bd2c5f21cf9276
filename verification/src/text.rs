//! Character-level helpers shared by the parsers of this crate.
//!
//! Identifiers of layers and options are path-like strings. The functions
//! here look at them as sequences of characters: they find a separator, cut a
//! range, compare two texts and split a path into its pieces.

use vstd::prelude::*;
use vstd::string::StringExecFns;

verus! {

/// Position of the first `c` in `s` at or after `from`; `s.len()` when `c`
/// does not occur there.
pub open spec fn first_at_or_after(s: Seq<char>, c: char, from: int) -> int
    decreases s.len() - from,
{
    if from >= s.len() {
        s.len() as int
    } else if s[from] == c {
        from
    } else {
        first_at_or_after(s, c, from + 1)
    }
}

/// The part of `s` in front of its first `#`; all of `s` when it holds none.
pub open spec fn before_marker(s: Seq<char>) -> Seq<char> {
    s.take(first_at_or_after(s, '#', 0))
}

/// The runs of `s` between slashes, seen from position `i` on, where the run
/// that is being read began at `start`. Empty runs are kept.
pub open spec fn pieces_scan(s: Seq<char>, start: int, i: int) -> Seq<Seq<char>>
    decreases s.len() - i,
{
    if i >= s.len() {
        seq![s.subrange(start, s.len() as int)]
    } else if s[i] == '/' {
        seq![s.subrange(start, i)] + pieces_scan(s, i + 1, i + 1)
    } else {
        pieces_scan(s, start, i + 1)
    }
}

/// `s` cut at every `/`: one piece more than there are slashes.
pub open spec fn pieces(s: Seq<char>) -> Seq<Seq<char>> {
    pieces_scan(s, 0, 0)
}

/// The texts that a list of strings holds.
pub open spec fn names(list: Seq<String>) -> Seq<Seq<char>> {
    list.map_values(|text: String| text@)
}

/// The texts that a vector of character vectors holds.
pub open spec fn texts(v: Seq<Vec<char>>) -> Seq<Seq<char>> {
    v.map_values(|t: Vec<char>| t@)
}

/// `first_at_or_after` stays between `from` and the end, points at a `c`
/// unless it is the end, and passes no `c` on its way.
pub proof fn lemma_first_at_or_after(s: Seq<char>, c: char, from: int)
    requires
        0 <= from <= s.len(),
    ensures
        from <= first_at_or_after(s, c, from) <= s.len(),
        first_at_or_after(s, c, from) < s.len() ==> s[first_at_or_after(s, c, from)] == c,
        forall|k: int| from <= k < first_at_or_after(s, c, from) ==> s[k] != c,
    decreases s.len() - from,
{
    if from < s.len() && s[from] != c {
        lemma_first_at_or_after(s, c, from + 1);
    }
}

/// The characters of `s`, in order, as a vector that can be indexed in
/// constant time.
pub fn chars_of(s: &str) -> (chars: Vec<char>)
    ensures
        chars@ == s@,
{
    let mut chars: Vec<char> = Vec::new();
    for c in it: s.chars()
        invariant
            it.seq() == s@,
            chars@ == s@.take(it.index() as int),
    {
        chars.push(c);
    }
    chars
}

/// Looks for `c` in `s` from `from` on.
pub fn first_index_of(s: &Vec<char>, c: char, from: usize) -> (at: usize)
    requires
        from <= s.len(),
    ensures
        at == first_at_or_after(s@, c, from as int),
        from <= at <= s.len(),
{
    let mut i: usize = from;
    while i < s.len() && s[i] != c
        invariant
            from <= i <= s.len(),
            first_at_or_after(s@, c, from as int) == first_at_or_after(s@, c, i as int),
        decreases s.len() - i,
    {
        i += 1;
    }
    i
}

/// A copy of the characters of `s` from `from` up to, not including, `to`.
pub fn copy_range(s: &Vec<char>, from: usize, to: usize) -> (out: Vec<char>)
    requires
        from <= to <= s.len(),
    ensures
        out@ == s@.subrange(from as int, to as int),
{
    let mut out: Vec<char> = Vec::new();
    let mut i: usize = from;
    while i < to
        invariant
            from <= i <= to <= s.len(),
            out@ == s@.subrange(from as int, i as int),
        decreases to - i,
    {
        out.push(s[i]);
        i += 1;
    }
    out
}

/// The characters in front of the first `#`.
pub fn strip_marker(s: &Vec<char>) -> (out: Vec<char>)
    ensures
        out@ == before_marker(s@),
{
    let end = first_index_of(s, '#', 0);
    copy_range(s, 0, end)
}

/// Whether two texts hold the same characters.
pub fn same_text(a: &Vec<char>, b: &Vec<char>) -> (same: bool)
    ensures
        same == (a@ == b@),
{
    if a.len() != b.len() {
        return false;
    }
    let mut i: usize = 0;
    while i < a.len()
        invariant
            i <= a.len(),
            a.len() == b.len(),
            a@.take(i as int) == b@.take(i as int),
        decreases a.len() - i,
    {
        if a[i] != b[i] {
            return false;
        }
        i += 1;
    }
    assert(a@ == a@.take(a.len() as int));
    assert(b@ == b@.take(b.len() as int));
    true
}

/// Whether `s` begins with `prefix`.
pub fn starts_with(s: &Vec<char>, prefix: &Vec<char>) -> (yes: bool)
    ensures
        yes == prefix@.is_prefix_of(s@),
{
    if prefix.len() > s.len() {
        return false;
    }
    let mut i: usize = 0;
    while i < prefix.len()
        invariant
            i <= prefix.len() <= s.len(),
            forall|k: int| 0 <= k < i ==> prefix@[k] == s@[k],
        decreases prefix.len() - i,
    {
        if prefix[i] != s[i] {
            return false;
        }
        i += 1;
    }
    true
}

/// The texts that lie in `s` between the given bounds.
pub open spec fn ranges_of(s: Seq<char>, bounds: Seq<(usize, usize)>) -> Seq<Seq<char>> {
    bounds.map_values(|range: (usize, usize)| s.subrange(range.0 as int, range.1 as int))
}

/// Finds where the pieces of `s` between slashes begin and end.
pub fn piece_bounds(s: &Vec<char>) -> (bounds: Vec<(usize, usize)>)
    ensures
        ranges_of(s@, bounds@) == pieces(s@),
        bounds.len() >= 1,
        forall|k: int|
            0 <= k < bounds.len() ==> (#[trigger] bounds[k]).0 <= bounds[k].1 <= s.len(),
{
    let mut bounds: Vec<(usize, usize)> = Vec::new();
    let mut start: usize = 0;
    let mut i: usize = 0;
    while i < s.len()
        invariant
            start <= i <= s.len(),
            ranges_of(s@, bounds@) + pieces_scan(s@, start as int, i as int) == pieces(s@),
            forall|k: int|
                0 <= k < bounds.len() ==> (#[trigger] bounds[k]).0 <= bounds[k].1 <= s.len(),
        decreases s.len() - i,
    {
        if s[i] == '/' {
            let ghost before = ranges_of(s@, bounds@);
            let ghost piece = s@.subrange(start as int, i as int);
            bounds.push((start, i));
            assert(before.push(piece) + pieces_scan(s@, i + 1, i + 1) == before + pieces_scan(
                s@,
                start as int,
                i as int,
            ));
            start = i + 1;
        }
        i += 1;
    }
    bounds.push((start, s.len()));
    bounds
}

/// Cuts `s` at every `/`.
pub fn split_pieces(s: &Vec<char>) -> (out: Vec<Vec<char>>)
    ensures
        texts(out@) == pieces(s@),
        out.len() >= 1,
{
    let bounds = piece_bounds(s);
    let mut out: Vec<Vec<char>> = Vec::new();
    let mut k: usize = 0;
    while k < bounds.len()
        invariant
            k <= bounds.len(),
            forall|j: int|
                0 <= j < bounds.len() ==> (#[trigger] bounds[j]).0 <= bounds[j].1 <= s.len(),
            texts(out@) == ranges_of(s@, bounds@).take(k as int),
        decreases bounds.len() - k,
    {
        let piece = copy_range(s, bounds[k].0, bounds[k].1);
        out.push(piece);
        assert(ranges_of(s@, bounds@).take(k + 1) == ranges_of(s@, bounds@).take(k as int).push(
            piece@,
        ));
        k += 1;
    }
    out
}

/// The character that writes the digit `d`.
pub open spec fn digit_char(d: nat) -> char {
    if d == 0 {
        '0'
    } else if d == 1 {
        '1'
    } else if d == 2 {
        '2'
    } else if d == 3 {
        '3'
    } else if d == 4 {
        '4'
    } else if d == 5 {
        '5'
    } else if d == 6 {
        '6'
    } else if d == 7 {
        '7'
    } else if d == 8 {
        '8'
    } else {
        '9'
    }
}

/// `n` written in decimal, without leading zeros.
pub open spec fn decimal_digits(n: nat) -> Seq<char>
    decreases n,
{
    if n < 10 {
        seq![digit_char(n)]
    } else {
        decimal_digits(n / 10).push(digit_char(n % 10))
    }
}

/// The one-character text of a digit.
fn digit_text(d: u64) -> (text: &'static str)
    requires
        d < 10,
    ensures
        text@ == seq![digit_char(d as nat)],
{
    proof {
        reveal_strlit("0");
        reveal_strlit("1");
        reveal_strlit("2");
        reveal_strlit("3");
        reveal_strlit("4");
        reveal_strlit("5");
        reveal_strlit("6");
        reveal_strlit("7");
        reveal_strlit("8");
        reveal_strlit("9");
    }
    let text = if d == 0 {
        "0"
    } else if d == 1 {
        "1"
    } else if d == 2 {
        "2"
    } else if d == 3 {
        "3"
    } else if d == 4 {
        "4"
    } else if d == 5 {
        "5"
    } else if d == 6 {
        "6"
    } else if d == 7 {
        "7"
    } else if d == 8 {
        "8"
    } else {
        "9"
    };
    text
}

/// Writes `n` in decimal.
pub fn decimal_text(n: u64) -> (text: String)
    ensures
        text@ == decimal_digits(n as nat),
    decreases n,
{
    if n < 10 {
        digit_text(n).to_owned()
    } else {
        let mut text = decimal_text(n / 10);
        text.append(digit_text(n % 10));
        text
    }
}

} // verus!
