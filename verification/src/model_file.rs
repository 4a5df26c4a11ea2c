//! The first line of a model file: the number of neurons of each layer, written as
//! a bracketed list such as `[4, 3, 2]`.
use vstd::prelude::*;

verus! {

/// The bytes that are trimmed off both ends of the line: space, `[` and `]`.
pub open spec fn is_trimmed_byte(b: u8) -> bool {
    b == 32 || b == 91 || b == 93
}

/// `s` without its leading trimmed bytes.
pub open spec fn trim_start(s: Seq<u8>) -> Seq<u8>
    decreases s.len(),
{
    if s.len() > 0 && is_trimmed_byte(s[0]) {
        trim_start(s.drop_first())
    } else {
        s
    }
}

/// `s` without its trailing trimmed bytes.
pub open spec fn trim_end(s: Seq<u8>) -> Seq<u8>
    decreases s.len(),
{
    if s.len() > 0 && is_trimmed_byte(s.last()) {
        trim_end(s.drop_last())
    } else {
        s
    }
}

/// The pieces of `s` between the occurrences of the separator `", "`; a string
/// without separator is one piece, the empty string one empty piece.
pub open spec fn pieces(s: Seq<u8>) -> Seq<Seq<u8>>
    decreases s.len(),
{
    if s.len() == 0 {
        seq![Seq::<u8>::empty()]
    } else if s.len() >= 2 && s[s.len() - 2] == 44 && s[s.len() - 1] == 32 {
        pieces(s.take(s.len() - 2)).push(Seq::<u8>::empty())
    } else {
        let r = pieces(s.drop_last());
        r.update(r.len() - 1, r.last().push(s.last()))
    }
}

/// The byte is an ASCII decimal digit.
pub open spec fn is_digit(b: u8) -> bool {
    48 <= b <= 57
}

/// The number that a string of decimal digits writes.
pub open spec fn digits_value(s: Seq<u8>) -> int
    decreases s.len(),
{
    if s.len() == 0 {
        0
    } else {
        digits_value(s.drop_last()) * 10 + (s.last() - 48)
    }
}

/// `s` without its leading `+`, if it has one.
pub open spec fn unsigned_digits(s: Seq<u8>) -> Seq<u8> {
    if s.len() > 0 && s[0] == 43 {
        s.drop_first()
    } else {
        s
    }
}

/// Every byte of `d` is a decimal digit.
pub open spec fn all_digits(d: Seq<u8>) -> bool {
    forall|i: int| 0 <= i < d.len() ==> is_digit(#[trigger] d[i])
}

/// The unsigned number that `s` writes: an optional `+`, then one or more decimal
/// digits, of a value that fits in a `u32`; `None` for anything else.
pub open spec fn parse_u32(s: Seq<u8>) -> Option<u32> {
    let d = unsigned_digits(s);
    if d.len() > 0 && all_digits(d) && digits_value(d) <= u32::MAX {
        Some(digits_value(d) as u32)
    } else {
        None
    }
}

/// The numbers that the pieces write, when every piece writes one.
pub open spec fn parse_all(ps: Seq<Seq<u8>>) -> Option<Seq<u32>>
    decreases ps.len(),
{
    if ps.len() == 0 {
        Some(Seq::empty())
    } else {
        match (parse_all(ps.drop_last()), parse_u32(ps.last())) {
            (Some(v), Some(x)) => Some(v.push(x)),
            _ => None,
        }
    }
}

/// The layer sizes that a header line writes: the line trimmed of spaces and
/// brackets at both ends, split at `", "`, each piece a number.
pub open spec fn header_sizes(line: Seq<u8>) -> Option<Seq<u32>> {
    parse_all(pieces(trim_end(trim_start(line))))
}

/// The number that `t[a..b]` writes, as [`parse_u32`] says.
fn parse_piece(t: &Vec<u8>, a: usize, b: usize) -> (r: Option<u32>)
    requires
        a <= b <= t@.len(),
    ensures
        r == parse_u32(t@.subrange(a as int, b as int)),
{
    let ghost s = t@.subrange(a as int, b as int);
    let mut k = a;
    if k < b && t[k] == 43 {
        k = k + 1;
    }
    let ghost d = unsigned_digits(s);
    assert(d =~= t@.subrange(k as int, b as int));
    if k == b {
        assert(d.len() == 0);
        assert(parse_u32(s) is None);
        return None;
    }
    let mut j = k;
    while j < b
        invariant
            k <= j <= b <= t@.len(),
            d =~= t@.subrange(k as int, b as int),
            s == t@.subrange(a as int, b as int),
            d == unsigned_digits(s),
            forall|i: int| 0 <= i < j - k ==> is_digit(#[trigger] d[i]),
        decreases b - j,
    {
        if !(48 <= t[j] && t[j] <= 57) {
            assert(!is_digit(d[j - k]));
            assert(!all_digits(d));
            assert(parse_u32(s) is None);
            return None;
        }
        j = j + 1;
    }
    let mut v: u64 = 0;
    let mut over = false;
    let mut j = k;
    while j < b
        invariant
            k <= j <= b <= t@.len(),
            d =~= t@.subrange(k as int, b as int),
            s == t@.subrange(a as int, b as int),
            d == unsigned_digits(s),
            forall|i: int| 0 <= i < d.len() ==> is_digit(#[trigger] d[i]),
            over ==> digits_value(d.take(j - k)) > u32::MAX,
            !over ==> v == digits_value(d.take(j - k)) && v <= u32::MAX,
        decreases b - j,
    {
        assert(d.take(j - k + 1).drop_last() =~= d.take(j - k));
        assert(is_digit(d[j - k]));
        if !over {
            let nv = v * 10 + (t[j] - 48) as u64;
            if nv > 4294967295 {
                over = true;
            } else {
                v = nv;
            }
        }
        j = j + 1;
    }
    assert(d.take(d.len() as int) =~= d);
    if over {
        None
    } else {
        Some(v as u32)
    }
}

/// The layer sizes that the header line of a model file writes, as [`header_sizes`]
/// says; `None` when the line does not write them.
pub fn parse_layer_sizes(line: &[u8]) -> (sizes: Option<Vec<u32>>)
    ensures
        match sizes {
            Some(v) => header_sizes(line@) == Some(v@),
            None => header_sizes(line@) is None,
        },
{
    let len = line.len();
    let mut lo: usize = 0;
    assert(line@.subrange(0, len as int) =~= line@);
    while lo < len && (line[lo] == 32 || line[lo] == 91 || line[lo] == 93)
        invariant
            lo <= len == line@.len(),
            trim_start(line@) == trim_start(line@.subrange(lo as int, len as int)),
        decreases len - lo,
    {
        assert(line@.subrange(lo as int, len as int).drop_first() =~= line@.subrange(lo + 1, len as int));
        lo = lo + 1;
    }
    assert(trim_start(line@) == line@.subrange(lo as int, len as int));
    let mut hi: usize = len;
    while hi > lo && (line[hi - 1] == 32 || line[hi - 1] == 91 || line[hi - 1] == 93)
        invariant
            lo <= hi <= len == line@.len(),
            trim_end(line@.subrange(lo as int, len as int)) == trim_end(line@.subrange(lo as int, hi as int)),
        decreases hi - lo,
    {
        assert(line@.subrange(lo as int, hi as int).drop_last() =~= line@.subrange(lo as int, hi - 1));
        hi = hi - 1;
    }
    let mut t: Vec<u8> = Vec::new();
    let mut i: usize = lo;
    while i < hi
        invariant
            lo <= i <= hi <= len == line@.len(),
            t@ == line@.subrange(lo as int, i as int),
        decreases hi - i,
    {
        t.push(line[i]);
        i = i + 1;
        assert(t@ =~= line@.subrange(lo as int, i as int));
    }
    assert(t@ == trim_end(trim_start(line@)));
    let n = t.len();
    let mut values: Vec<u32> = Vec::new();
    let mut ok = true;
    let ghost mut done: Seq<Seq<u8>> = Seq::empty();
    let mut st: usize = 0;
    let mut i: usize = 0;
    assert(t@.take(0) =~= Seq::<u8>::empty());
    assert(t@.subrange(0, 0) =~= Seq::<u8>::empty());
    assert(done.push(Seq::<u8>::empty()) =~= seq![Seq::<u8>::empty()]);
    while i < n
        invariant
            n == t@.len(),
            st <= i <= n,
            pieces(t@.take(i as int)) == done.push(t@.subrange(st as int, i as int)),
            parse_all(done) == (if ok { Some(values@) } else { None::<Seq<u32>> }),
            i > 0 && i < n ==> !(t@[i - 1] == 44 && t@[i as int] == 32),
        decreases n - i,
    {
        if i + 1 < n && t[i] == 44 && t[i + 1] == 32 {
            let r = parse_piece(&t, st, i);
            proof {
                let p = t@.subrange(st as int, i as int);
                assert(t@.take(i + 2).take(i as int) =~= t@.take(i as int));
                assert(done.push(p).drop_last() =~= done);
                done = done.push(p);
            }
            match r {
                Some(x) => {
                    if ok {
                        values.push(x);
                    }
                },
                None => {
                    ok = false;
                },
            }
            i = i + 2;
            st = i;
            assert(t@.subrange(st as int, i as int) =~= Seq::<u8>::empty());
        } else {
            proof {
                let r = pieces(t@.take(i as int));
                assert(t@.take(i + 1).drop_last() =~= t@.take(i as int));
                assert(t@.subrange(st as int, i + 1) =~= t@.subrange(st as int, i as int).push(t@[i as int]));
            }
            i = i + 1;
        }
    }
    let r = parse_piece(&t, st, n);
    proof {
        let p = t@.subrange(st as int, n as int);
        assert(t@.take(n as int) =~= t@);
        assert(done.push(p).drop_last() =~= done);
    }
    match r {
        Some(x) => {
            if ok {
                values.push(x);
                Some(values)
            } else {
                None
            }
        },
        None => None,
    }
}

} // verus!

verus! {

/// The decimal digits of `x`, without leading zeros, as `{:?}` prints a `u32`.
pub open spec fn decimal(x: nat) -> Seq<u8>
    decreases x,
{
    if x < 10 {
        seq![(48 + x) as u8]
    } else {
        decimal(x / 10).push((48 + x % 10) as u8)
    }
}

/// The numbers of `s` written in decimal and separated by `", "`.
pub open spec fn joined(s: Seq<u32>) -> Seq<u8>
    decreases s.len(),
{
    if s.len() == 0 {
        Seq::empty()
    } else if s.len() == 1 {
        decimal(s[0] as nat)
    } else {
        joined(s.drop_last()) + seq![44u8, 32u8] + decimal(s.last() as nat)
    }
}

/// The header line that `{:?}` prints for a vector of layer sizes: `[4, 3, 2]`.
pub open spec fn header_line(s: Seq<u32>) -> Seq<u8> {
    seq![91u8] + joined(s) + seq![93u8]
}

/// A decimal writing is one or more digits, of the number it writes.
pub proof fn lemma_decimal(x: nat)
    ensures
        decimal(x).len() > 0,
        all_digits(decimal(x)),
        digits_value(decimal(x)) == x,
    decreases x,
{
    if x >= 10 {
        lemma_decimal(x / 10);
        let d = decimal(x);
        assert(d.drop_last() == decimal(x / 10));
        assert forall|i: int| 0 <= i < d.len() implies is_digit(#[trigger] d[i]) by {
            if i < d.len() - 1 {
                assert(d[i] == decimal(x / 10)[i]);
            }
        }
        let q = x / 10;
        let r = x % 10;
        assert(x == q * 10 + r && 0 <= r < 10) by (nonlinear_arith)
            requires
                q == x / 10,
                r == x % 10,
        ;
        assert(d.last() == (48 + r) as u8);
        assert(d.last() - 48 == r);
        assert(digits_value(decimal(q)) == q);
        assert(digits_value(d) == digits_value(decimal(q)) * 10 + (d.last() - 48));
        assert(digits_value(d) == q * 10 + r);
    } else {
        let d = decimal(x);
        assert(d.drop_last() =~= Seq::<u8>::empty());
        assert(digits_value(d) == digits_value(d.drop_last()) * 10 + (d.last() - 48));
    }
}

/// A string of digits is a single piece.
pub proof fn lemma_pieces_digits(d: Seq<u8>)
    requires
        all_digits(d),
    ensures
        pieces(d) == seq![d],
    decreases d.len(),
{
    if d.len() > 0 {
        let dl = d.drop_last();
        assert(all_digits(dl)) by {
            assert forall|i: int| 0 <= i < dl.len() implies is_digit(#[trigger] dl[i]) by {
                assert(dl[i] == d[i]);
            }
        }
        lemma_pieces_digits(dl);
        assert(is_digit(d[d.len() - 1]));
        assert(dl.push(d.last()) =~= d);
    } else {
        assert(d =~= Seq::<u8>::empty());
    }
}

/// A string of digits after a separator is one more piece.
pub proof fn lemma_pieces_sep_digits(x: Seq<u8>, d: Seq<u8>)
    requires
        all_digits(d),
    ensures
        pieces(x + seq![44u8, 32u8] + d) == pieces(x).push(d),
    decreases d.len(),
{
    let s = x + seq![44u8, 32u8] + d;
    if d.len() == 0 {
        assert(s.take(s.len() - 2) =~= x);
        assert(d =~= Seq::<u8>::empty());
    } else {
        let dl = d.drop_last();
        assert(all_digits(dl)) by {
            assert forall|i: int| 0 <= i < dl.len() implies is_digit(#[trigger] dl[i]) by {
                assert(dl[i] == d[i]);
            }
        }
        lemma_pieces_sep_digits(x, dl);
        assert(is_digit(d[d.len() - 1]));
        assert(s.last() == d.last());
        assert(s.drop_last() =~= x + seq![44u8, 32u8] + dl);
        assert(dl.push(d.last()) =~= d);
        assert(pieces(s) =~= pieces(x).push(d));
    }
}

/// The pieces of a joined list are the decimal writings of its numbers.
pub proof fn lemma_pieces_joined(s: Seq<u32>)
    requires
        s.len() > 0,
    ensures
        pieces(joined(s)) == s.map_values(|x: u32| decimal(x as nat)),
    decreases s.len(),
{
    lemma_decimal(s.last() as nat);
    if s.len() == 1 {
        lemma_pieces_digits(decimal(s[0] as nat));
        assert(s.map_values(|x: u32| decimal(x as nat)) =~= seq![decimal(s[0] as nat)]);
    } else {
        lemma_pieces_joined(s.drop_last());
        lemma_pieces_sep_digits(joined(s.drop_last()), decimal(s.last() as nat));
        assert(s.drop_last().map_values(|x: u32| decimal(x as nat)).push(decimal(s.last() as nat)) =~= s.map_values(
            |x: u32| decimal(x as nat),
        ));
    }
}

/// The decimal writings of the numbers parse back to the numbers.
pub proof fn lemma_parse_all_decimal(s: Seq<u32>)
    ensures
        parse_all(s.map_values(|x: u32| decimal(x as nat))) == Some(s),
    decreases s.len(),
{
    let ps = s.map_values(|x: u32| decimal(x as nat));
    if s.len() > 0 {
        lemma_parse_all_decimal(s.drop_last());
        assert(ps.drop_last() =~= s.drop_last().map_values(|x: u32| decimal(x as nat)));
        let d = decimal(s.last() as nat);
        lemma_decimal(s.last() as nat);
        assert(is_digit(d[0]));
        assert(unsigned_digits(d) == d);
        assert(s.drop_last().push(s.last()) =~= s);
    } else {
        assert(s =~= Seq::<u32>::empty());
    }
}

/// A joined non-empty list starts and ends with a digit.
pub proof fn lemma_joined_ends(s: Seq<u32>)
    requires
        s.len() > 0,
    ensures
        joined(s).len() > 0,
        is_digit(joined(s)[0]),
        is_digit(joined(s).last()),
    decreases s.len(),
{
    lemma_decimal(s.last() as nat);
    let d = decimal(s.last() as nat);
    assert(is_digit(d[d.len() - 1]));
    if s.len() == 1 {
        assert(is_digit(d[0]));
    } else {
        lemma_joined_ends(s.drop_last());
    }
}

/// Law of the header line: the line that `{:?}` prints for a non-empty vector of
/// layer sizes parses back to those sizes.
pub proof fn law_header_round_trip(s: Seq<u32>)
    requires
        s.len() > 0,
    ensures
        header_sizes(header_line(s)) == Some(s),
{
    let j = joined(s);
    let line = header_line(s);
    lemma_joined_ends(s);
    assert(line.drop_first() =~= j + seq![93u8]);
    assert(!is_trimmed_byte((j + seq![93u8])[0]));
    assert(trim_start(j + seq![93u8]) == j + seq![93u8]);
    assert(trim_start(line) == j + seq![93u8]);
    assert((j + seq![93u8]).drop_last() =~= j);
    assert(!is_trimmed_byte(j.last()));
    assert(trim_end(j) == j);
    assert(trim_end(j + seq![93u8]) == j);
    lemma_pieces_joined(s);
    lemma_parse_all_decimal(s);
}

} // verus!
