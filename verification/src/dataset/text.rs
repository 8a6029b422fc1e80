//! Character-level reading of text fields: white space, splitting at a character, and
//! the integers that `str::parse` accepts.
use vstd::prelude::*;
use vstd::std_specs::iter::IteratorSpec;

verus! {

pub open spec fn fits_i64(x: int) -> bool {
    i64::MIN <= x <= i64::MAX
}

/// Unicode's White_Space property, the characters `str::trim` strips.
pub open spec fn is_white_space(c: char) -> bool {
    ||| '\u{9}' <= c <= '\u{d}'
    ||| c == ' '
    ||| c == '\u{85}'
    ||| c == '\u{a0}'
    ||| c == '\u{1680}'
    ||| '\u{2000}' <= c <= '\u{200a}'
    ||| c == '\u{2028}'
    ||| c == '\u{2029}'
    ||| c == '\u{202f}'
    ||| c == '\u{205f}'
    ||| c == '\u{3000}'
}

pub open spec fn trim_start(s: Seq<char>) -> Seq<char>
    decreases s.len(),
{
    if s.len() > 0 && is_white_space(s[0]) {
        trim_start(s.drop_first())
    } else {
        s
    }
}

pub open spec fn trim_end(s: Seq<char>) -> Seq<char>
    decreases s.len(),
{
    if s.len() > 0 && is_white_space(s.last()) {
        trim_end(s.drop_last())
    } else {
        s
    }
}

/// `s` without white space at either end.
pub open spec fn trim(s: Seq<char>) -> Seq<char> {
    trim_end(trim_start(s))
}

/// `i` is the position of the first `c` in `s`.
pub open spec fn is_first(s: Seq<char>, c: char, i: int) -> bool {
    &&& 0 <= i < s.len()
    &&& s[i] == c
    &&& forall|j: int| 0 <= j < i ==> s[j] != c
}

/// What comes before and after the first `c` in `s`, if there is one.
pub open spec fn split_first(s: Seq<char>, c: char) -> Option<(Seq<char>, Seq<char>)> {
    if exists|i: int| is_first(s, c, i) {
        let i = choose|i: int| is_first(s, c, i);
        Some((s.take(i), s.skip(i + 1)))
    } else {
        None
    }
}

/// The `n`th piece of `s` split at every `c`, counting from zero, if `s` has that many.
pub open spec fn nth_piece(s: Seq<char>, c: char, n: nat) -> Option<Seq<char>>
    decreases n,
{
    match split_first(s, c) {
        Some((head, rest)) => if n == 0 {
            Some(head)
        } else {
            nth_piece(rest, c, (n - 1) as nat)
        },
        None => if n == 0 {
            Some(s)
        } else {
            None
        },
    }
}

pub open spec fn is_digit(c: char) -> bool {
    '0' <= c <= '9'
}

pub open spec fn all_digits(s: Seq<char>) -> bool {
    forall|i: int| 0 <= i < s.len() ==> is_digit(#[trigger] s[i])
}

/// The number that a string of decimal digits writes.
pub open spec fn digits_value(s: Seq<char>) -> int
    decreases s.len(),
{
    if s.len() == 0 {
        0
    } else {
        digits_value(s.drop_last()) * 10 + (s.last() as int - '0' as int)
    }
}

/// The integer that `str::parse` reads from `s`, before its range is checked: an optional
/// `+` (or `-`, for a signed type), then one or more ASCII digits and nothing else.
pub open spec fn integer_text(s: Seq<char>, signed: bool) -> Option<int> {
    let negative = signed && s.len() > 0 && s[0] == '-';
    let digits = if s.len() > 0 && (s[0] == '+' || negative) {
        s.drop_first()
    } else {
        s
    };
    if digits.len() > 0 && all_digits(digits) {
        Some(if negative { -digits_value(digits) } else { digits_value(digits) })
    } else {
        None
    }
}

/// What `s.parse::<i64>()` gives, as an integer.
pub open spec fn i64_text(s: Seq<char>) -> Option<int> {
    match integer_text(s, true) {
        Some(v) => if fits_i64(v) { Some(v) } else { None },
        None => None,
    }
}

/// What `s.parse::<u32>()` gives, as an integer.
pub open spec fn u32_text(s: Seq<char>) -> Option<int> {
    match integer_text(s, false) {
        Some(v) => if v <= u32::MAX { Some(v) } else { None },
        None => None,
    }
}

/// The characters of `s`, in order.
pub(crate) fn chars_of(s: &str) -> (v: Vec<char>)
    ensures
        v@ == s@,
{
    broadcast use vstd::string::axiom_spec_iter, vstd::string::next_postcondition;

    let mut v: Vec<char> = Vec::new();
    let mut it = s.chars();
    loop
        invariant
            it.obeys_prophetic_iter_laws(),
            v@ + it.remaining() == s@,
        ensures
            v@ == s@,
        decreases s@.len() - v@.len(),
    {
        match it.next() {
            Some(c) => {
                v.push(c);
            },
            None => {
                assert(v@ + it.remaining() =~= v@);
                break ;
            },
        }
    }
    v
}

pub(crate) fn white_space(c: char) -> (b: bool)
    ensures
        b == is_white_space(c),
{
    ('\u{9}' <= c && c <= '\u{d}') || c == ' ' || c == '\u{85}' || c == '\u{a0}' || c == '\u{1680}'
        || ('\u{2000}' <= c && c <= '\u{200a}') || c == '\u{2028}' || c == '\u{2029}'
        || c == '\u{202f}' || c == '\u{205f}' || c == '\u{3000}'
}

/// Bounds of `v[from..to]` without the white space at either end.
pub(crate) fn trim_bounds(v: &Vec<char>, from: usize, to: usize) -> (r: (usize, usize))
    requires
        from <= to <= v.len(),
    ensures
        from <= r.0 <= r.1 <= to,
        v@.subrange(r.0 as int, r.1 as int) == trim(v@.subrange(from as int, to as int)),
{
    let ghost s = v@.subrange(from as int, to as int);
    let mut lo: usize = from;
    while lo < to && white_space(v[lo])
        invariant
            from <= lo <= to <= v.len(),
            s == v@.subrange(from as int, to as int),
            trim_start(s) == trim_start(v@.subrange(lo as int, to as int)),
        decreases to - lo,
    {
        assert(v@.subrange(lo as int, to as int).drop_first() =~= v@.subrange(
            lo + 1,
            to as int,
        ));
        lo = lo + 1;
    }
    assert(trim_start(s) == v@.subrange(lo as int, to as int));
    let mut hi: usize = to;
    while hi > lo && white_space(v[hi - 1])
        invariant
            from <= lo <= hi <= to <= v.len(),
            s == v@.subrange(from as int, to as int),
            trim_start(s) == v@.subrange(lo as int, to as int),
            trim(s) == trim_end(v@.subrange(lo as int, hi as int)),
        decreases hi,
    {
        assert(v@.subrange(lo as int, hi as int).drop_last() =~= v@.subrange(
            lo as int,
            hi - 1,
        ));
        hi = hi - 1;
    }
    (lo, hi)
}

/// Two positions that are each the first `c` are the same position.
proof fn lemma_first_unique(s: Seq<char>, c: char, i: int, k: int)
    requires
        is_first(s, c, i),
        is_first(s, c, k),
    ensures
        i == k,
{
    if i < k {
        assert(s[i] != c);
    } else if k < i {
        assert(s[k] != c);
    }
}

/// Position of the first `c` in `v[lo..hi]`, if there is one.
pub(crate) fn find_char(v: &Vec<char>, lo: usize, hi: usize, c: char) -> (r: Option<usize>)
    requires
        lo <= hi <= v.len(),
    ensures
        match r {
            Some(i) => lo <= i < hi && split_first(v@.subrange(lo as int, hi as int), c) == Some(
                (v@.subrange(lo as int, i as int), v@.subrange(i + 1, hi as int)),
            ),
            None => split_first(v@.subrange(lo as int, hi as int), c) is None,
        },
{
    let ghost s = v@.subrange(lo as int, hi as int);
    let mut i = lo;
    while i < hi
        invariant
            lo <= i <= hi <= v.len(),
            s == v@.subrange(lo as int, hi as int),
            forall|j: int| lo <= j < i ==> v@[j] != c,
        decreases hi - i,
    {
        if v[i] == c {
            assert(is_first(s, c, i - lo));
            proof {
                let k = choose|k: int| is_first(s, c, k);
                lemma_first_unique(s, c, i - lo, k);
            }
            assert(s.take(i - lo) =~= v@.subrange(lo as int, i as int));
            assert(s.skip(i - lo + 1) =~= v@.subrange(i + 1, hi as int));
            return Some(i);
        }
        i = i + 1;
    }
    assert(!exists|k: int| is_first(s, c, k)) by {
        if exists|k: int| is_first(s, c, k) {
            let k = choose|k: int| is_first(s, c, k);
            assert(v@[lo + k] == s[k]);
        }
    }
    None
}

/// Bounds of the `n`th piece of `v[lo..hi]` split at every `c`.
pub(crate) fn piece(v: &Vec<char>, lo: usize, hi: usize, c: char, n: usize) -> (r: Option<(usize, usize)>)
    requires
        lo <= hi <= v.len(),
    ensures
        match r {
            Some((a, b)) => lo <= a <= b <= hi && nth_piece(
                v@.subrange(lo as int, hi as int),
                c,
                n as nat,
            ) == Some(v@.subrange(a as int, b as int)),
            None => nth_piece(v@.subrange(lo as int, hi as int), c, n as nat) is None,
        },
    decreases n,
{
    match find_char(v, lo, hi, c) {
        Some(i) => {
            if n == 0 {
                Some((lo, i))
            } else {
                piece(v, i + 1, hi, c, n - 1)
            }
        },
        None => {
            if n == 0 {
                Some((lo, hi))
            } else {
                None
            }
        },
    }
}

/// A prefix of a digit string writes no more than the whole string, and neither is negative.
pub(crate) proof fn lemma_digits_grow(s: Seq<char>, k: int)
    requires
        all_digits(s),
        0 <= k <= s.len(),
    ensures
        0 <= digits_value(s.take(k)) <= digits_value(s),
    decreases s.len(),
{
    if s.len() == 0 {
        assert(s.take(k) =~= s);
    } else {
        let t = s.drop_last();
        assert(is_digit(s[s.len() - 1]));
        if k == s.len() {
            lemma_digits_grow(t, k - 1);
            assert(s.take(k) =~= s);
        } else {
            lemma_digits_grow(t, k);
            assert(t.take(k) =~= s.take(k));
        }
    }
}

/// The number that the digits `v[lo..hi]` write, if they are one or more ASCII digits and
/// the number is at most `max`.
pub(crate) fn digits_upto(v: &Vec<char>, lo: usize, hi: usize, max: u64) -> (r: Option<u64>)
    requires
        lo <= hi <= v.len(),
    ensures
        ({
            let s = v@.subrange(lo as int, hi as int);
            match r {
                Some(x) => s.len() > 0 && all_digits(s) && x == digits_value(s) && x <= max,
                None => !(s.len() > 0 && all_digits(s) && digits_value(s) <= max),
            }
        }),
{
    let ghost s = v@.subrange(lo as int, hi as int);
    let mut acc: u64 = 0;
    let mut i = lo;
    assert(v@.subrange(lo as int, lo as int) =~= Seq::<char>::empty());
    while i < hi
        invariant
            lo <= i <= hi <= v.len(),
            s == v@.subrange(lo as int, hi as int),
            all_digits(v@.subrange(lo as int, i as int)),
            acc == digits_value(v@.subrange(lo as int, i as int)),
            acc <= max,
        decreases hi - i,
    {
        let c = v[i];
        if !('0' <= c && c <= '9') {
            assert(s[i - lo] == c);
            return None;
        }
        let ghost t = v@.subrange(lo as int, i + 1);
        assert(t.drop_last() =~= v@.subrange(lo as int, i as int));
        let next: u128 = acc as u128 * 10 + (c as u32 - '0' as u32) as u128;
        assert(next == digits_value(t));
        if next > max as u128 {
            proof {
                if all_digits(s) {
                    lemma_digits_grow(s, i + 1 - lo);
                    assert(s.take(i + 1 - lo) =~= t);
                }
            }
            return None;
        }
        acc = next as u64;
        i = i + 1;
    }
    if i == lo {
        None
    } else {
        Some(acc)
    }
}

/// `v[lo..hi].parse::<i64>()`.
pub(crate) fn parse_i64(v: &Vec<char>, lo: usize, hi: usize) -> (r: Option<i64>)
    requires
        lo <= hi <= v.len(),
    ensures
        match r {
            Some(x) => i64_text(v@.subrange(lo as int, hi as int)) == Some(x as int),
            None => i64_text(v@.subrange(lo as int, hi as int)) is None,
        },
{
    let ghost s = v@.subrange(lo as int, hi as int);
    if lo < hi && v[lo] == '-' {
        assert(s.drop_first() =~= v@.subrange(lo + 1, hi as int));
        match digits_upto(v, lo + 1, hi, 0x8000_0000_0000_0000) {
            Some(m) => {
                if m == 0x8000_0000_0000_0000 {
                    Some(i64::MIN)
                } else {
                    Some(-(m as i64))
                }
            },
            None => None,
        }
    } else {
        let start = if lo < hi && v[lo] == '+' {
            assert(s.drop_first() =~= v@.subrange(lo + 1, hi as int));
            lo + 1
        } else {
            lo
        };
        match digits_upto(v, start, hi, 0x7fff_ffff_ffff_ffff) {
            Some(m) => Some(m as i64),
            None => None,
        }
    }
}

/// `v[lo..hi].parse::<u32>()`.
pub(crate) fn parse_u32(v: &Vec<char>, lo: usize, hi: usize) -> (r: Option<u32>)
    requires
        lo <= hi <= v.len(),
    ensures
        match r {
            Some(x) => u32_text(v@.subrange(lo as int, hi as int)) == Some(x as int),
            None => u32_text(v@.subrange(lo as int, hi as int)) is None,
        },
{
    let ghost s = v@.subrange(lo as int, hi as int);
    let start = if lo < hi && v[lo] == '+' {
        assert(s.drop_first() =~= v@.subrange(lo + 1, hi as int));
        lo + 1
    } else {
        lo
    };
    match digits_upto(v, start, hi, 0xffff_ffff) {
        Some(m) => Some(m as u32),
        None => None,
    }
}

/// What separates the pieces of a split: one given character, or any white space.
#[derive(Clone, Copy)]
pub enum Separator {
    Char(char),
    WhiteSpace,
}

impl Separator {
    pub open spec fn separates(self, c: char) -> bool {
        match self {
            Separator::Char(d) => c == d,
            Separator::WhiteSpace => is_white_space(c),
        }
    }

    pub fn test(&self, c: char) -> (b: bool)
        ensures
            b == self.separates(c),
    {
        match self {
            Separator::Char(d) => c == *d,
            Separator::WhiteSpace => white_space(c),
        }
    }
}

/// The pieces of `s` between separators, as `str::split` gives them: one more than there
/// are separators, empty pieces included.
pub open spec fn split(s: Seq<char>, sep: Separator) -> Seq<Seq<char>>
    decreases s.len(),
{
    if s.len() == 0 {
        seq![Seq::empty()]
    } else {
        let pieces = split(s.drop_last(), sep);
        if sep.separates(s.last()) {
            pieces.push(Seq::empty())
        } else {
            pieces.update(pieces.len() - 1, pieces.last().push(s.last()))
        }
    }
}

proof fn lemma_split_len(s: Seq<char>, sep: Separator)
    ensures
        split(s, sep).len() >= 1,
    decreases s.len(),
{
    if s.len() > 0 {
        lemma_split_len(s.drop_last(), sep);
    }
}

/// A line without the carriage return of its `\r\n` ending.
pub open spec fn strip_cr(line: Seq<char>) -> Seq<char> {
    if line.len() > 0 && line.last() == '\r' {
        line.drop_last()
    } else {
        line
    }
}

/// The lines of `s`, as `str::lines` gives them: split at `\n`, a `\r` before the `\n`
/// dropped, and no empty line after a final `\n`.
pub open spec fn lines(s: Seq<char>) -> Seq<Seq<char>> {
    let pieces = split(s, Separator::Char('\n'));
    let ended = Seq::new((pieces.len() - 1) as nat, |k: int| strip_cr(pieces[k]));
    if pieces.last().len() == 0 {
        ended
    } else {
        ended.push(pieces.last())
    }
}

/// The pieces among `pieces` that are not empty.
pub open spec fn nonempty_pieces(pieces: Seq<Seq<char>>) -> Seq<Seq<char>> {
    pieces.filter(|w: Seq<char>| w.len() > 0)
}

pub(crate) proof fn lemma_nonempty_pieces_push(pieces: Seq<Seq<char>>, p: Seq<char>)
    ensures
        nonempty_pieces(pieces.push(p)) == if p.len() > 0 {
            nonempty_pieces(pieces).push(p)
        } else {
            nonempty_pieces(pieces)
        },
{
    reveal(Seq::filter);
    assert(pieces.push(p).drop_last() =~= pieces);
}

/// The words of `s`, as `str::split_whitespace` gives them: the non-empty pieces between
/// white space.
pub open spec fn words(s: Seq<char>) -> Seq<Seq<char>> {
    nonempty_pieces(split(s, Separator::WhiteSpace))
}

/// Bounds of the pieces of `v[lo..hi]` between separators.
pub(crate) fn split_bounds(v: &Vec<char>, lo: usize, hi: usize, sep: Separator) -> (r: Vec<(usize, usize)>)
    requires
        lo <= hi <= v.len(),
    ensures
        r.len() == split(v@.subrange(lo as int, hi as int), sep).len(),
        forall|k: int|
            0 <= k < r.len() ==> lo <= (#[trigger] r[k]).0 <= r[k].1 <= hi && v@.subrange(
                r[k].0 as int,
                r[k].1 as int,
            ) == split(v@.subrange(lo as int, hi as int), sep)[k],
{
    let mut r: Vec<(usize, usize)> = Vec::new();
    let mut start = lo;
    let mut i = lo;
    assert(v@.subrange(lo as int, lo as int) =~= Seq::<char>::empty());
    while i < hi
        invariant
            lo <= start <= i <= hi <= v.len(),
            split(v@.subrange(lo as int, i as int), sep).len() == r.len() + 1,
            forall|k: int|
                0 <= k < r.len() ==> lo <= (#[trigger] r[k]).0 <= r[k].1 <= start && v@.subrange(
                    r[k].0 as int,
                    r[k].1 as int,
                ) == split(v@.subrange(lo as int, i as int), sep)[k],
            split(v@.subrange(lo as int, i as int), sep).last() == v@.subrange(
                start as int,
                i as int,
            ),
        decreases hi - i,
    {
        let ghost before = split(v@.subrange(lo as int, i as int), sep);
        let ghost t = v@.subrange(lo as int, i + 1);
        assert(t.drop_last() =~= v@.subrange(lo as int, i as int));
        if sep.test(v[i]) {
            r.push((start, i));
            start = i + 1;
            assert(v@.subrange(start as int, i + 1) =~= Seq::<char>::empty());
        } else {
            assert(v@.subrange(start as int, i + 1) =~= v@.subrange(start as int, i as int).push(
                v@[i as int],
            ));
        }
        i = i + 1;
    }
    r.push((start, hi));
    r
}

/// Bounds of the lines of `v[lo..hi]`.
pub(crate) fn line_bounds(v: &Vec<char>, lo: usize, hi: usize) -> (r: Vec<(usize, usize)>)
    requires
        lo <= hi <= v.len(),
    ensures
        r.len() == lines(v@.subrange(lo as int, hi as int)).len(),
        forall|k: int|
            0 <= k < r.len() ==> lo <= (#[trigger] r[k]).0 <= r[k].1 <= hi && v@.subrange(
                r[k].0 as int,
                r[k].1 as int,
            ) == lines(v@.subrange(lo as int, hi as int))[k],
{
    let ghost s = v@.subrange(lo as int, hi as int);
    let ghost pieces = split(s, Separator::Char('\n'));
    proof {
        lemma_split_len(s, Separator::Char('\n'));
    }
    let pieces_at = split_bounds(v, lo, hi, Separator::Char('\n'));
    let n = pieces_at.len();
    let mut r: Vec<(usize, usize)> = Vec::new();
    let mut k: usize = 0;
    while k + 1 < n
        invariant
            lo <= hi <= v.len(),
            n == pieces_at.len() == pieces.len() >= 1,
            pieces == split(v@.subrange(lo as int, hi as int), Separator::Char('\n')),
            k + 1 <= n,
            r.len() == k,
            forall|j: int|
                0 <= j < pieces_at.len() ==> lo <= (#[trigger] pieces_at[j]).0 <= pieces_at[j].1
                    <= hi && v@.subrange(pieces_at[j].0 as int, pieces_at[j].1 as int)
                    == pieces[j],
            forall|j: int|
                0 <= j < k ==> lo <= (#[trigger] r[j]).0 <= r[j].1 <= hi && v@.subrange(
                    r[j].0 as int,
                    r[j].1 as int,
                ) == strip_cr(pieces[j]),
        decreases n - k,
    {
        let (a, b) = pieces_at[k];
        let ghost p = pieces[k as int];
        assert(lo <= pieces_at[k as int].0 <= pieces_at[k as int].1 <= hi);
        assert(p == v@.subrange(a as int, b as int));
        if b > a && v[b - 1] == '\r' {
            assert(p.drop_last() =~= v@.subrange(a as int, b - 1));
            r.push((a, b - 1));
        } else {
            r.push((a, b));
        }
        k = k + 1;
    }
    let (a, b) = pieces_at[n - 1];
    assert(lo <= pieces_at[n - 1].0 <= pieces_at[n - 1].1 <= hi);
    if b > a {
        r.push((a, b));
    }
    proof {
        let ended = Seq::new((pieces.len() - 1) as nat, |j: int| strip_cr(pieces[j]));
        assert(forall|j: int| 0 <= j < ended.len() ==> ended[j] == strip_cr(pieces[j]));
    }
    r
}

} // verus!
