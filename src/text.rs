//! Splitting byte text at a separator and reading unsigned decimal numbers.
use vstd::prelude::*;

verus! {

/// `0`, the first decimal digit.
pub const ZERO: u8 = 0x30;

/// `9`, the last decimal digit.
pub const NINE: u8 = 0x39;

/// `+`, allowed once in front of a number.
pub const PLUS: u8 = 0x2b;

/// The pieces of `s` between occurrences of `sep`, as `split` gives them:
/// always at least one piece, and an empty piece wherever two separators
/// touch or one stands at an end.
pub open spec fn pieces(s: Seq<u8>, sep: u8) -> Seq<Seq<u8>>
    decreases s.len(),
{
    if s.len() == 0 {
        seq![Seq::empty()]
    } else {
        let p = pieces(s.drop_last(), sep);
        if s.last() == sep {
            p.push(Seq::empty())
        } else {
            p.update(p.len() - 1, p.last().push(s.last()))
        }
    }
}

pub proof fn lemma_pieces_nonempty(s: Seq<u8>, sep: u8)
    ensures
        pieces(s, sep).len() >= 1,
    decreases s.len(),
{
    if s.len() > 0 {
        lemma_pieces_nonempty(s.drop_last(), sep);
    }
}

/// Text without the separator is a single piece.
pub proof fn lemma_pieces_single(s: Seq<u8>, sep: u8)
    requires
        !s.contains(sep),
    ensures
        pieces(s, sep) == seq![s],
    decreases s.len(),
{
    if s.len() > 0 {
        let d = s.drop_last();
        assert(!d.contains(sep)) by {
            if d.contains(sep) {
                let i = choose|i: int| 0 <= i < d.len() && d[i] == sep;
                assert(s[i] == sep);
            }
        }
        lemma_pieces_single(d, sep);
        assert(s.last() != sep) by {
            assert(s[s.len() - 1] == s.last());
        }
        assert(d.push(s.last()) =~= s);
        assert(seq![d].update(0, d.push(s.last())) =~= seq![s]);
    } else {
        assert(s =~= Seq::<u8>::empty());
    }
}

/// A separator between two texts splits them into the pieces of each.
pub proof fn lemma_pieces_concat(a: Seq<u8>, b: Seq<u8>, sep: u8)
    ensures
        pieces(a + seq![sep] + b, sep) == pieces(a, sep) + pieces(b, sep),
    decreases b.len(),
{
    lemma_pieces_nonempty(a, sep);
    lemma_pieces_nonempty(b, sep);
    let s = a + seq![sep] + b;
    if b.len() == 0 {
        assert(s.drop_last() =~= a);
        assert(pieces(a, sep).push(Seq::empty()) =~= pieces(a, sep) + pieces(b, sep));
    } else {
        let bd = b.drop_last();
        lemma_pieces_concat(a, bd, sep);
        lemma_pieces_nonempty(bd, sep);
        assert(s.drop_last() =~= a + seq![sep] + bd);
        assert(s.last() == b.last());
        let pa = pieces(a, sep);
        let pb = pieces(bd, sep);
        if b.last() == sep {
            assert((pa + pb).push(Seq::empty()) =~= pa + pb.push(Seq::empty()));
        } else {
            let p = pa + pb;
            assert(p.update(p.len() - 1, p.last().push(b.last())) =~= pa + pb.update(
                pb.len() - 1,
                pb.last().push(b.last()),
            ));
        }
    }
}

/// The bounds of the pieces of `s[lo..hi]` split at `sep`, as positions in `s`.
pub fn split_ranges(s: &[u8], lo: usize, hi: usize, sep: u8) -> (r: Vec<(usize, usize)>)
    requires
        lo <= hi <= s@.len(),
    ensures
        r@.len() == pieces(s@.subrange(lo as int, hi as int), sep).len(),
        forall|k: int|
            0 <= k < r@.len() ==> {
                &&& lo <= (#[trigger] r@[k]).0 <= r@[k].1 <= hi
                &&& s@.subrange(r@[k].0 as int, r@[k].1 as int) == pieces(
                    s@.subrange(lo as int, hi as int),
                    sep,
                )[k]
            },
{
    let mut r: Vec<(usize, usize)> = Vec::new();
    let mut start: usize = lo;
    let mut i: usize = lo;
    while i < hi
        invariant
            lo <= start <= i <= hi <= s@.len(),
            r@.len() + 1 == pieces(s@.subrange(lo as int, i as int), sep).len(),
            s@.subrange(start as int, i as int) == pieces(
                s@.subrange(lo as int, i as int),
                sep,
            ).last(),
            forall|k: int|
                0 <= k < r@.len() ==> {
                    &&& lo <= (#[trigger] r@[k]).0 <= r@[k].1 <= start
                    &&& s@.subrange(r@[k].0 as int, r@[k].1 as int) == pieces(
                        s@.subrange(lo as int, i as int),
                        sep,
                    )[k]
                },
        decreases hi - i,
    {
        proof {
            let t = s@.subrange(lo as int, i as int + 1);
            assert(t.drop_last() =~= s@.subrange(lo as int, i as int));
            assert(t.last() == s@[i as int]);
            lemma_pieces_nonempty(t.drop_last(), sep);
        }
        if s[i] == sep {
            r.push((start, i));
            start = i + 1;
            proof {
                assert(s@.subrange(start as int, i as int + 1) =~= Seq::<u8>::empty());
            }
        } else {
            proof {
                assert(s@.subrange(start as int, i as int + 1) =~= s@.subrange(
                    start as int,
                    i as int,
                ).push(s@[i as int]));
            }
        }
        i = i + 1;
    }
    r.push((start, hi));
    r
}

pub open spec fn is_digit(b: u8) -> bool {
    ZERO <= b && b <= NINE
}

pub open spec fn all_digits(s: Seq<u8>) -> bool {
    forall|i: int| 0 <= i < s.len() ==> is_digit(#[trigger] s[i])
}

/// The value of a run of decimal digits, most significant first.
pub open spec fn decimal_value(s: Seq<u8>) -> nat
    decreases s.len(),
{
    if s.len() == 0 {
        0
    } else {
        decimal_value(s.drop_last()) * 10 + (s.last() - ZERO) as nat
    }
}

/// A field without its one optional leading plus sign.
pub open spec fn unsigned_digits(s: Seq<u8>) -> Seq<u8> {
    if s.len() > 0 && s[0] == PLUS {
        s.drop_first()
    } else {
        s
    }
}

/// The unsigned 32-bit number that a field denotes: an optional `+` and at
/// least one decimal digit, with a value that fits; `None` for anything else.
pub open spec fn number_of(s: Seq<u8>) -> Option<u32> {
    let d = unsigned_digits(s);
    if d.len() > 0 && all_digits(d) && decimal_value(d) <= u32::MAX {
        Some(decimal_value(d) as u32)
    } else {
        None
    }
}

/// A field's number, or zero where the field is no number.
pub open spec fn number_or_zero(s: Seq<u8>) -> u32 {
    match number_of(s) {
        Some(v) => v,
        None => 0,
    }
}

/// The shortest decimal text of `v`.
pub open spec fn decimal_text(v: nat) -> Seq<u8>
    decreases v,
{
    if v < 10 {
        seq![(ZERO as nat + v) as u8]
    } else {
        decimal_text(v / 10).push((ZERO as nat + v % 10) as u8)
    }
}

/// Decimal text is a non-empty run of digits whose value is the number.
pub proof fn lemma_decimal_text(v: nat)
    ensures
        decimal_text(v).len() > 0,
        all_digits(decimal_text(v)),
        decimal_value(decimal_text(v)) == v,
    decreases v,
{
    let t = decimal_text(v);
    if v < 10 {
        assert(t.drop_last() =~= Seq::<u8>::empty());
        assert((t.last() - ZERO) as nat == v);
        assert(decimal_value(t) == decimal_value(t.drop_last()) * 10 + (t.last() - ZERO) as nat);
        assert(decimal_value(t.drop_last()) == 0);
    } else {
        lemma_decimal_text(v / 10);
        assert(t.drop_last() =~= decimal_text(v / 10));
        assert((t.last() - ZERO) as nat == v % 10);
        assert((v / 10) * 10 + v % 10 == v);
        assert(decimal_value(t) == decimal_value(t.drop_last()) * 10 + (t.last() - ZERO) as nat);
    }
}

/// Reading a number back from its decimal text gives the number.
pub proof fn lemma_number_of_decimal_text(v: u32)
    ensures
        number_of(decimal_text(v as nat)) == Some(v),
{
    lemma_decimal_text(v as nat);
    let t = decimal_text(v as nat);
    assert(is_digit(t[0]));
    assert(unsigned_digits(t) == t);
}

/// `v`, or one past the largest 32-bit value where it does not fit.
pub open spec fn capped(v: nat) -> nat {
    if v <= u32::MAX {
        v
    } else {
        u32::MAX as nat + 1
    }
}

/// Reads the number in `s[lo..hi]`.
pub fn parse_number(s: &[u8], lo: usize, hi: usize) -> (r: Option<u32>)
    requires
        lo <= hi <= s@.len(),
    ensures
        r == number_of(s@.subrange(lo as int, hi as int)),
{
    let ghost f = s@.subrange(lo as int, hi as int);
    let mut i: usize = lo;
    if i < hi && s[i] == PLUS {
        i = i + 1;
    }
    assert(unsigned_digits(f) =~= s@.subrange(i as int, hi as int));
    if i == hi {
        return None;
    }
    let start: usize = i;
    let mut acc: u64 = 0;
    while i < hi
        invariant
            lo <= start <= i <= hi <= s@.len(),
            f == s@.subrange(lo as int, hi as int),
            unsigned_digits(f) == s@.subrange(start as int, hi as int),
            all_digits(s@.subrange(start as int, i as int)),
            acc == capped(decimal_value(s@.subrange(start as int, i as int))),
        decreases hi - i,
    {
        let b = s[i];
        let ghost pre = s@.subrange(start as int, i as int);
        let ghost next = s@.subrange(start as int, i as int + 1);
        assert(next.drop_last() =~= pre);
        assert(next.last() == b);
        if b < ZERO || b > NINE {
            assert(unsigned_digits(f)[i - start] == b);
            assert(!is_digit(unsigned_digits(f)[i - start]));
            return None;
        }
        acc = acc * 10 + (b - ZERO) as u64;
        if acc > u32::MAX as u64 {
            acc = u32::MAX as u64 + 1;
        }
        i = i + 1;
        assert(all_digits(next)) by {
            assert forall|j: int| 0 <= j < next.len() implies is_digit(#[trigger] next[j]) by {
                if j < pre.len() {
                    assert(next[j] == pre[j]);
                }
            }
        }
    }
    if acc > u32::MAX as u64 {
        None
    } else {
        Some(acc as u32)
    }
}

/// Appends the decimal text of `v` to `out`.
pub fn push_decimal(out: &mut Vec<u8>, v: u32)
    ensures
        final(out)@ == old(out)@ + decimal_text(v as nat),
    decreases v,
{
    if v >= 10 {
        push_decimal(out, v / 10);
    }
    out.push(ZERO + (v % 10) as u8);
    proof {
        if v >= 10 {
            assert(old(out)@ + decimal_text(v as nat) =~= old(out)@ + decimal_text((v / 10) as nat)
                + seq![(ZERO as nat + v % 10) as u8]);
        } else {
            assert(old(out)@ + decimal_text(v as nat) =~= old(out)@ + seq![(ZERO as nat + v) as u8]);
        }
    }
}

} // verus!
