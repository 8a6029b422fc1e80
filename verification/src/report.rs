//! Number formatting for benchmark reports.
use vstd::prelude::*;
use vstd::string::{StrSliceExecFns, StringExecFns};

verus! {

/// The character of decimal digit `d`.
pub open spec fn digit_char(d: int) -> char {
    (d + 48) as char
}

/// The decimal digits of `n`, most significant first, without leading zeros.
pub open spec fn digits(n: nat) -> Seq<nat>
    decreases n,
{
    if n < 10 {
        seq![n]
    } else {
        digits(n / 10).push(n % 10)
    }
}

/// The decimal numeral of `n`.
pub open spec fn numeral(n: nat) -> Seq<char> {
    digits(n).map_values(|d: nat| digit_char(d as int))
}

/// The last three decimal digits of `n`, leading zeros included.
pub open spec fn three_digits(n: nat) -> Seq<char> {
    seq![
        digit_char((n / 100 % 10) as int),
        digit_char((n / 10 % 10) as int),
        digit_char((n % 10) as int),
    ]
}

/// `n` in decimal with a comma between each group of three digits, counted from the right.
pub open spec fn with_separators(n: nat) -> Seq<char>
    decreases n,
{
    if n < 1000 {
        numeral(n)
    } else {
        with_separators(n / 1000) + seq![','] + three_digits(n % 1000)
    }
}

/// The first `k` characters of a numeral of `len` digits written out, with a comma before
/// each digit whose distance from the end is a positive multiple of three.
pub open spec fn grouped(numeral: Seq<char>, len: int, k: nat) -> Seq<char>
    decreases k,
{
    if k == 0 {
        Seq::empty()
    } else {
        let i = k - 1;
        let before = grouped(numeral, len, (k - 1) as nat);
        let before = if i > 0 && (len - i) % 3 == 0 {
            before.push(',')
        } else {
            before
        };
        before.push(numeral[i])
    }
}

proof fn lemma_digits_split(n: nat)
    requires
        n >= 1000,
    ensures
        digits(n) == digits(n / 1000).push(n % 1000 / 100 % 10).push(n % 1000 / 10 % 10).push(
            n % 1000 % 10,
        ),
{
    assert(n / 10 / 10 == n / 100) by (nonlinear_arith)
        requires
            n >= 0,
    ;
    assert(n / 100 / 10 == n / 1000) by (nonlinear_arith)
        requires
            n >= 0,
    ;
    assert(n / 10 % 10 == n % 1000 / 10 % 10) by (nonlinear_arith)
        requires
            n >= 0,
    ;
    assert(n / 100 % 10 == n % 1000 / 100 % 10) by (nonlinear_arith)
        requires
            n >= 0,
    ;
    assert(n % 10 == n % 1000 % 10) by (nonlinear_arith)
        requires
            n >= 0,
    ;
    assert(n / 10 >= 10 && n / 100 >= 10);
    assert(digits(n) == digits(n / 10).push(n % 10));
    assert(digits(n / 10) == digits(n / 10 / 10).push(n / 10 % 10));
    assert(digits(n / 100) == digits(n / 100 / 10).push(n / 100 % 10));
}

proof fn lemma_numeral_split(n: nat)
    requires
        n >= 1000,
    ensures
        numeral(n) == numeral(n / 1000) + three_digits(n % 1000),
        numeral(n / 1000).len() >= 1,
{
    lemma_digits_split(n);
    lemma_digits_len(n / 1000);
    assert(numeral(n) =~= numeral(n / 1000) + three_digits(n % 1000));
}

proof fn lemma_digits_len(n: nat)
    ensures
        digits(n).len() >= 1,
        n < 10 ==> digits(n).len() == 1,
        n < 100 ==> digits(n).len() <= 2,
        n < 1000 ==> digits(n).len() <= 3,
        forall|i: int| 0 <= i < digits(n).len() ==> #[trigger] digits(n)[i] < 10,
    decreases n,
{
    if n >= 10 {
        lemma_digits_len(n / 10);
    }
}

/// A numeral of at most three digits needs no comma.
proof fn lemma_grouped_short(numeral: Seq<char>, k: nat)
    requires
        numeral.len() <= 3,
        k <= numeral.len(),
    ensures
        grouped(numeral, numeral.len() as int, k) == numeral.take(k as int),
    decreases k,
{
    if k > 0 {
        lemma_grouped_short(numeral, (k - 1) as nat);
        assert(numeral.take(k as int) =~= numeral.take(k - 1).push(numeral[k - 1]));
    }
}

/// Three more digits at the end do not move the commas before them.
proof fn lemma_grouped_prefix(head: Seq<char>, tail: Seq<char>, k: nat)
    requires
        tail.len() == 3,
        k <= head.len(),
    ensures
        grouped(head + tail, head.len() + 3 as int, k) == grouped(head, head.len() as int, k),
    decreases k,
{
    if k > 0 {
        lemma_grouped_prefix(head, tail, (k - 1) as nat);
        assert((head.len() + 3 - (k - 1)) % 3 == (head.len() - (k - 1)) % 3);
    }
}

proof fn lemma_grouped_numeral(n: nat)
    ensures
        grouped(numeral(n), numeral(n).len() as int, numeral(n).len()) == with_separators(n),
    decreases n,
{
    lemma_digits_len(n);
    if n < 1000 {
        lemma_grouped_short(numeral(n), numeral(n).len());
        assert(numeral(n).take(numeral(n).len() as int) =~= numeral(n));
    } else {
        let head = numeral(n / 1000);
        let tail = three_digits(n % 1000);
        lemma_numeral_split(n);
        lemma_grouped_numeral(n / 1000);
        lemma_grouped_prefix(head, tail, head.len());
        let d = head + tail;
        let h = head.len();
        let len = h + 3 as int;
        assert(grouped(d, len, h) == grouped(head, h as int, h));
        assert(grouped(d, len, h + 1) == grouped(d, len, h).push(',').push(d[h as int]));
        assert(grouped(d, len, h + 2) == grouped(d, len, (h + 1) as nat).push(d[h + 1 as int]));
        assert(grouped(d, len, h + 3) == grouped(d, len, (h + 2) as nat).push(d[h + 2 as int]));
        assert(grouped(d, len, h + 3) =~= grouped(head, h as int, h) + seq![','] + tail);
    }
}

/// Appends the character of digit `d`.
fn append_digit(out: &mut String, d: usize)
    requires
        d < 10,
    ensures
        final(out)@ == old(out)@.push(digit_char(d as int)),
{
    let table = "0123456789";
    proof {
        reveal_strlit("0123456789");
    }
    let one = table.substring_char(d, d + 1);
    assert(one@ =~= seq![digit_char(d as int)]);
    out.append(one);
}

/// Appends the decimal digits of `n`, most significant first.
fn push_digits(out: &mut Vec<usize>, n: usize)
    ensures
        final(out)@ == old(out)@ + digits(n as nat).map_values(|d: nat| d as usize),
        forall|i: int| old(out)@.len() <= i < final(out)@.len() ==> #[trigger] final(out)@[i] < 10,
    decreases n,
{
    if n >= 10 {
        push_digits(out, n / 10);
    }
    let ghost before = out@;
    out.push(n % 10);
    proof {
        if n >= 10 {
            assert(digits(n as nat).map_values(|d: nat| d as usize) =~= digits((n / 10) as nat).map_values(|d: nat| d as usize).push(n % 10));
        }
    }
}

/// `value` in decimal with a comma between each group of three digits, counted from the
/// right: `1234567` becomes `1,234,567`.
pub fn thousands(value: usize) -> (s: String)
    ensures
        s@ == with_separators(value as nat),
{
    let mut ds: Vec<usize> = Vec::new();
    push_digits(&mut ds, value);
    let ghost written = numeral(value as nat);
    proof {
        lemma_digits_len(value as nat);
    }
    assert(written.len() == ds.len());
    assert(forall|i: int| 0 <= i < ds.len() ==> written[i] == digit_char(ds[i] as int));
    let len = ds.len();
    let comma = ",";
    proof {
        reveal_strlit(",");
    }
    let mut out = String::new();
    let mut i: usize = 0;
    while i < len
        invariant
            len == ds.len() == written.len(),
            written == numeral(value as nat),
            forall|j: int| 0 <= j < ds.len() ==> ds[j] < 10,
            forall|j: int| 0 <= j < ds.len() ==> written[j] == digit_char(ds[j] as int),
            comma@ == seq![','],
            i <= len,
            out@ == grouped(written, len as int, i as nat),
        decreases len - i,
    {
        if i > 0 && (len - i) % 3 == 0 {
            out.append(comma);
        }
        append_digit(&mut out, ds[i]);
        i = i + 1;
    }
    proof {
        lemma_grouped_numeral(value as nat);
    }
    out
}

} // verus!
