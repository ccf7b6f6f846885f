//! Byte-level pieces of the Ivy text protocol: decimal numbers, separators
//! and UTF-8 text.
use vstd::prelude::*;
use vstd::utf8::*;
use vstd::string::StringSliceAdditionalSpecFns;

verus! {

broadcast use vstd::seq::group_seq_axioms;

/// The ASCII code of the digit `0`.
pub const ZERO: u8 = 48u8;

pub open spec fn is_digit(b: u8) -> bool {
    48 <= b <= 57
}

/// The decimal representation of `n`: most significant digit first, no
/// leading zero (the text that `format!("{}", n)` writes).
pub open spec fn decimal(n: nat) -> Seq<u8>
    decreases n,
{
    if n < 10 {
        seq![(48 + n) as u8]
    } else {
        decimal(n / 10).push((48 + n % 10) as u8)
    }
}

/// The number that a string of decimal digits denotes.
pub open spec fn digits_value(s: Seq<u8>) -> nat
    decreases s.len(),
{
    if s.len() == 0 {
        0
    } else {
        digits_value(s.drop_last()) * 10 + (s.last() - 48) as nat
    }
}

pub open spec fn all_digits(s: Seq<u8>) -> bool {
    forall|i: int| 0 <= i < s.len() ==> is_digit(#[trigger] s[i])
}

/// The digits that an unsigned integer parse looks at: the text without
/// one leading `+`.
pub open spec fn unsigned_digits(s: Seq<u8>) -> Seq<u8> {
    if s.len() > 0 && s[0] == 43 {
        s.drop_first()
    } else {
        s
    }
}

/// The value of an unsigned decimal text as `str::parse` reads it: an
/// optional `+` followed by one or more ASCII digits, nothing else.
pub open spec fn decimal_value(s: Seq<u8>) -> Option<nat> {
    let d = unsigned_digits(s);
    if d.len() > 0 && all_digits(d) {
        Some(digits_value(d))
    } else {
        None
    }
}

/// `decimal_value`, where it fits in a `u32`.
pub open spec fn decimal_u32(s: Seq<u8>) -> Option<u32> {
    match decimal_value(s) {
        Some(n) => if n <= u32::MAX {
            Some(n as u32)
        } else {
            None
        },
        None => None,
    }
}

/// `decimal_value`, where it fits in a `u8`.
pub open spec fn decimal_u8(s: Seq<u8>) -> Option<u8> {
    match decimal_value(s) {
        Some(n) => if n <= u8::MAX {
            Some(n as u8)
        } else {
            None
        },
        None => None,
    }
}

/// `decimal_value`, where it fits in a `u16`.
pub open spec fn decimal_u16(s: Seq<u8>) -> Option<u16> {
    match decimal_value(s) {
        Some(n) => if n <= u16::MAX {
            Some(n as u16)
        } else {
            None
        },
        None => None,
    }
}

pub proof fn lemma_decimal_shape(n: nat)
    ensures
        decimal(n).len() > 0,
        all_digits(decimal(n)),
        digits_value(decimal(n)) == n,
        decimal(n)[0] != 43,
    decreases n,
{
    if n >= 10 {
        lemma_decimal_shape(n / 10);
        let d = decimal(n);
        assert(d.drop_last() == decimal(n / 10));
        assert(n == (n / 10) * 10 + n % 10) by (nonlinear_arith);
        assert(d.last() == 48 + n % 10);
    } else {
        let d = decimal(n);
        assert(d.drop_last() =~= Seq::<u8>::empty());
        assert(digits_value(d.drop_last()) == 0);
    }
}

/// Reading back the decimal text of a number gives the number.
pub proof fn lemma_decimal_roundtrip(n: nat)
    ensures
        decimal_value(decimal(n)) == Some(n),
{
    lemma_decimal_shape(n);
}

/// Appends the decimal text of `n` to `buf`.
pub fn push_decimal(buf: &mut Vec<u8>, n: u32)
    ensures
        final(buf)@ == old(buf)@ + decimal(n as nat),
    decreases n,
{
    if n >= 10 {
        push_decimal(buf, n / 10);
    }
    buf.push(ZERO + (n % 10) as u8);
    proof {
        if n >= 10 {
            assert(old(buf)@ + decimal((n / 10) as nat) + seq![(48 + n % 10) as u8] =~= old(buf)@
                + decimal(n as nat));
        } else {
            assert(old(buf)@.push((48 + n) as u8) =~= old(buf)@ + decimal(n as nat));
        }
    }
}


/// The pieces of `s` between the bytes equal to `sep`, as `<[u8]>::split`
/// yields them: there is always one more piece than separators.
pub open spec fn split_on(s: Seq<u8>, sep: u8) -> Seq<Seq<u8>>
    decreases s.len(),
{
    if s.len() == 0 {
        seq![Seq::empty()]
    } else {
        let init = split_on(s.drop_last(), sep);
        if s.last() == sep {
            init.push(Seq::empty())
        } else {
            init.update(init.len() - 1, init.last().push(s.last()))
        }
    }
}

pub proof fn lemma_split_on_nonempty(s: Seq<u8>, sep: u8)
    ensures
        split_on(s, sep).len() >= 1,
    decreases s.len(),
{
    if s.len() > 0 {
        lemma_split_on_nonempty(s.drop_last(), sep);
    }
}

/// The piece of `s` that `r` delimits.
pub open spec fn piece(s: Seq<u8>, r: (usize, usize)) -> Seq<u8> {
    s.subrange(r.0 as int, r.1 as int)
}

/// `r` delimits a piece of `s` that has a separator (or an end of `s`) on
/// each side.
pub open spec fn is_piece_range(s: Seq<u8>, sep: u8, r: (usize, usize)) -> bool {
    &&& r.0 <= r.1 <= s.len()
    &&& (r.0 == 0 || s[r.0 - 1] == sep)
    &&& (r.1 == s.len() || s[r.1 as int] == sep)
}

/// The bounds of the pieces of `s` between the bytes equal to `sep`.
pub fn split_ranges(s: &[u8], sep: u8) -> (res: Vec<(usize, usize)>)
    ensures
        res@.len() == split_on(s@, sep).len(),
        forall|j: int| 0 <= j < res@.len() ==> is_piece_range(s@, sep, #[trigger] res@[j]),
        forall|j: int| 0 <= j < res@.len() ==> piece(s@, #[trigger] res@[j]) == split_on(s@, sep)[j],
{
    let mut res: Vec<(usize, usize)> = Vec::new();
    let mut start: usize = 0;
    let mut i: usize = 0;
    proof {
        assert(s@.take(0) =~= Seq::<u8>::empty());
    }
    while i < s.len()
        invariant
            start <= i <= s@.len(),
            start == 0 || s@[start - 1] == sep,
            res@.len() + 1 == split_on(s@.take(i as int), sep).len(),
            forall|j: int|
                0 <= j < res@.len() ==> is_piece_range(s@, sep, #[trigger] res@[j]) && res@[j].1
                    < start,
            forall|j: int|
                0 <= j < res@.len() ==> piece(s@, #[trigger] res@[j]) == split_on(
                    s@.take(i as int),
                    sep,
                )[j],
            split_on(s@.take(i as int), sep).last() == s@.subrange(start as int, i as int),
        decreases s@.len() - i,
    {
        let ghost prev = split_on(s@.take(i as int), sep);
        proof {
            assert(s@.take(i + 1).drop_last() =~= s@.take(i as int));
            assert(s@.take(i + 1).last() == s@[i as int]);
        }
        if s[i] == sep {
            res.push((start, i));
            start = i + 1;
            proof {
                assert(s@.subrange(start as int, i + 1) =~= Seq::<u8>::empty());
            }
        } else {
            proof {
                assert(s@.subrange(start as int, i + 1) =~= s@.subrange(start as int, i as int).push(
                    s@[i as int],
                ));
            }
        }
        i = i + 1;
    }
    res.push((start, i));
    proof {
        assert(s@.take(s@.len() as int) =~= s@);
    }
    res
}

/// Splitting at an ASCII byte keeps UTF-8 text whole: both sides of such a
/// byte are character boundaries.
pub proof fn lemma_ascii_boundaries(s: Seq<u8>, i: int)
    requires
        valid_utf8(s),
        0 <= i < s.len(),
        s[i] < 0x80,
    ensures
        is_char_boundary(s, i),
        is_char_boundary(s, i + 1),
{
    is_char_boundary_iff_not_is_continuation_byte(s, i);
    if i + 1 == s.len() {
        is_char_boundary_start_end_of_seq(s);
    } else {
        is_char_boundary_iff_not_is_continuation_byte(s, i);
        valid_utf8_split(s, i);
        let t = s.subrange(i, s.len() as int);
        assert(valid_utf8(t));
        assert(is_leading_byte_width_1(t[0]));
        assert(pop_first_scalar(t) =~= s.subrange(i + 1, s.len() as int));
        let u = s.subrange(i + 1, s.len() as int);
        assert(valid_utf8(u));
        assert(valid_first_scalar(u));
        assert(u[0] == s[i + 1]);
        is_char_boundary_iff_not_is_continuation_byte(s, i + 1);
    }
}

/// The text between two character boundaries of valid UTF-8 is valid UTF-8.
pub proof fn lemma_valid_segment(s: Seq<u8>, lo: int, hi: int)
    requires
        valid_utf8(s),
        0 <= lo <= hi <= s.len(),
        is_char_boundary(s, lo),
        is_char_boundary(s, hi),
    ensures
        valid_utf8(s.subrange(lo, hi)),
{
    valid_utf8_split(s, lo);
    let t = s.subrange(lo, s.len() as int);
    if hi == s.len() {
        assert(t.subrange(0, hi - lo) =~= t);
    } else {
        is_char_boundary_iff_not_is_continuation_byte(s, hi);
        assert(t[hi - lo] == s[hi]);
        is_char_boundary_iff_not_is_continuation_byte(t, hi - lo);
        valid_utf8_split(t, hi - lo);
        assert(t.subrange(0, hi - lo) =~= s.subrange(lo, hi));
    }
}

/// A piece of valid UTF-8 text cut at an ASCII separator is valid UTF-8.
pub proof fn lemma_piece_valid(s: Seq<u8>, sep: u8, r: (usize, usize))
    requires
        valid_utf8(s),
        sep < 0x80,
        is_piece_range(s, sep, r),
    ensures
        valid_utf8(piece(s, r)),
{
    if r.0 == 0 {
        is_char_boundary_start_end_of_seq(s);
    } else {
        lemma_ascii_boundaries(s, r.0 - 1);
    }
    if r.1 == s.len() {
        is_char_boundary_start_end_of_seq(s);
    } else {
        lemma_ascii_boundaries(s, r.1 as int);
    }
    lemma_valid_segment(s, r.0 as int, r.1 as int);
}

/// The pieces `ps`, each followed by `sep`.
pub open spec fn join_terminated(ps: Seq<Seq<u8>>, sep: u8) -> Seq<u8>
    decreases ps.len(),
{
    if ps.len() == 0 {
        Seq::empty()
    } else {
        join_terminated(ps.drop_last(), sep) + ps.last().push(sep)
    }
}

proof fn lemma_split_on_append(a: Seq<u8>, b: Seq<u8>, sep: u8)
    requires
        !b.contains(sep),
    ensures
        split_on(a + b, sep) == split_on(a, sep).update(
            split_on(a, sep).len() - 1,
            split_on(a, sep).last() + b,
        ),
    decreases b.len(),
{
    lemma_split_on_nonempty(a, sep);
    if b.len() == 0 {
        assert(a + b =~= a);
        assert(split_on(a, sep).last() + b =~= split_on(a, sep).last());
        assert(split_on(a, sep).update(split_on(a, sep).len() - 1, split_on(a, sep).last())
            =~= split_on(a, sep));
    } else {
        let b0 = b.drop_last();
        assert(!b0.contains(sep)) by {
            if b0.contains(sep) {
                let j = choose|j: int| 0 <= j < b0.len() && b0[j] == sep;
                assert(b[j] == sep);
            }
        }
        lemma_split_on_append(a, b0, sep);
        assert((a + b).drop_last() =~= a + b0);
        assert((a + b).last() == b.last());
        assert(b.last() != sep) by {
            assert(b[b.len() - 1] == b.last());
        }
        let u = split_on(a, sep);
        let init = split_on(a + b0, sep);
        assert(init.len() == u.len());
        assert(init.last() == u.last() + b0);
        assert(init.last().push(b.last()) =~= u.last() + b);
        assert(split_on(a + b, sep) == init.update(init.len() - 1, init.last().push(b.last())));
        assert(split_on(a + b, sep) =~= split_on(a, sep).update(
            split_on(a, sep).len() - 1,
            split_on(a, sep).last() + b,
        ));
    }
}

/// Splitting pieces that each end with `sep` at `sep` gives them back,
/// with one empty piece after the last separator.
pub proof fn lemma_split_join_terminated(ps: Seq<Seq<u8>>, sep: u8)
    requires
        forall|j: int| 0 <= j < ps.len() ==> !(#[trigger] ps[j]).contains(sep),
    ensures
        split_on(join_terminated(ps, sep), sep) == ps.push(Seq::empty()),
    decreases ps.len(),
{
    if ps.len() == 0 {
        assert(split_on(Seq::<u8>::empty(), sep) =~= seq![Seq::<u8>::empty()]);
    } else {
        let init = ps.drop_last();
        let p = ps.last();
        assert(!p.contains(sep)) by {
            assert(ps[ps.len() - 1] == p);
        }
        lemma_split_join_terminated(init, sep);
        let j = join_terminated(init, sep);
        lemma_split_on_append(j, p, sep);
        let whole = join_terminated(ps, sep);
        assert(whole =~= (j + p).push(sep));
        assert(whole.drop_last() =~= j + p);
        assert(split_on(j + p, sep) =~= init.push(p));
        assert(init.push(p) =~= ps);
    }
}

/// Text without `sep`, then `sep`, split at `sep`: the split of the text,
/// then an empty piece.
pub proof fn lemma_split_on_push_sep(a: Seq<u8>, sep: u8)
    ensures
        split_on(a.push(sep), sep) == split_on(a, sep).push(Seq::empty()),
{
    assert(a.push(sep).drop_last() =~= a);
}

/// Four pieces free of `sep`, joined by `sep`, split back into themselves.
pub proof fn lemma_split_four(p0: Seq<u8>, p1: Seq<u8>, p2: Seq<u8>, p3: Seq<u8>, sep: u8)
    requires
        !p0.contains(sep),
        !p1.contains(sep),
        !p2.contains(sep),
        !p3.contains(sep),
    ensures
        split_on(p0.push(sep) + p1.push(sep) + p2.push(sep) + p3, sep) == seq![p0, p1, p2, p3],
{
    let e = Seq::<u8>::empty();
    assert(split_on(e, sep) == seq![e]);
    lemma_split_on_append(e, p0, sep);
    assert(e + p0 =~= p0);
    assert(split_on(p0, sep) =~= seq![p0]);
    lemma_split_on_push_sep(p0, sep);
    let a1 = p0.push(sep);
    lemma_split_on_append(a1, p1, sep);
    assert(split_on(a1 + p1, sep) =~= seq![p0, p1]);
    lemma_split_on_push_sep(a1 + p1, sep);
    let a2 = (a1 + p1).push(sep);
    assert(a2 =~= p0.push(sep) + p1.push(sep));
    lemma_split_on_append(a2, p2, sep);
    assert(split_on(a2 + p2, sep) =~= seq![p0, p1, p2]);
    lemma_split_on_push_sep(a2 + p2, sep);
    let a3 = (a2 + p2).push(sep);
    assert(a3 =~= p0.push(sep) + p1.push(sep) + p2.push(sep));
    lemma_split_on_append(a3, p3, sep);
    assert(split_on(a3 + p3, sep) =~= seq![p0, p1, p2, p3]);
}

/// Separators between the leading fields of a frame: a space or the byte 2.
pub open spec fn is_field_sep(b: u8) -> bool {
    b == 32 || b == 2
}

pub open spec fn no_field_sep(s: Seq<u8>, lo: int, hi: int) -> bool {
    forall|j: int| lo <= j < hi ==> !is_field_sep(#[trigger] s[j])
}

/// `i` and `k` are the first two field separators of `s`.
pub open spec fn first_two_seps(s: Seq<u8>, i: int, k: int) -> bool {
    &&& 0 <= i < k < s.len()
    &&& is_field_sep(s[i])
    &&& is_field_sep(s[k])
    &&& no_field_sep(s, 0, i)
    &&& no_field_sep(s, i + 1, k)
}

/// The three pieces of `s` that `splitn(3, ..)` at field separators gives,
/// where it gives three: the text before the first separator, the text
/// between the first two, and all the rest.
pub open spec fn split_fields(s: Seq<u8>) -> Option<(Seq<u8>, Seq<u8>, Seq<u8>)> {
    if exists|i: int, k: int| first_two_seps(s, i, k) {
        let (i, k) = choose|i: int, k: int| first_two_seps(s, i, k);
        Some((s.subrange(0, i), s.subrange(i + 1, k), s.subrange(k + 1, s.len() as int)))
    } else {
        None
    }
}

proof fn lemma_first_two_seps_unique(s: Seq<u8>, i: int, k: int, i2: int, k2: int)
    requires
        first_two_seps(s, i, k),
        first_two_seps(s, i2, k2),
    ensures
        i == i2,
        k == k2,
{
    if i < i2 {
        assert(!is_field_sep(s[i]));
    } else if i2 < i {
        assert(!is_field_sep(s[i2]));
    }
    if k < k2 {
        assert(!is_field_sep(s[k]));
    } else if k2 < k {
        assert(!is_field_sep(s[k2]));
    }
}

/// The fields of `s` are cut at `i` and `k` when those are its first two
/// field separators.
pub proof fn lemma_split_fields_at(s: Seq<u8>, i: int, k: int)
    requires
        first_two_seps(s, i, k),
    ensures
        split_fields(s) == Some(
            (s.subrange(0, i), s.subrange(i + 1, k), s.subrange(k + 1, s.len() as int)),
        ),
{
    let (i2, k2) = choose|i2: int, k2: int| first_two_seps(s, i2, k2);
    lemma_first_two_seps_unique(s, i, k, i2, k2);
}

/// The index of the first field separator of `s` at or after `from`, or the
/// length of `s` where there is none.
pub fn find_field_sep(s: &[u8], from: usize) -> (res: usize)
    requires
        from <= s@.len(),
    ensures
        from <= res <= s@.len(),
        no_field_sep(s@, from as int, res as int),
        res < s@.len() ==> is_field_sep(s@[res as int]),
{
    let mut i = from;
    while i < s.len()
        invariant
            from <= i <= s@.len(),
            no_field_sep(s@, from as int, i as int),
        decreases s@.len() - i,
    {
        if s[i] == 32 || s[i] == 2 {
            return i;
        }
        i = i + 1;
    }
    i
}

/// `std::str::from_utf8`: the text that `v` holds, where `v` is valid
/// UTF-8. The documentation of `from_utf8` promises an error exactly on
/// invalid UTF-8 and otherwise a `str` made of the same bytes.
#[verifier::external_body]
pub(crate) fn str_from_utf8(v: &[u8]) -> (res: Option<&str>)
    ensures
        res is Some <==> valid_utf8(v@),
        res matches Some(s) ==> s.spec_bytes() == v@,
{
    std::str::from_utf8(v).ok()
}

/// `str::parse::<u32>`: its documentation promises success exactly on an
/// optional `+` followed by one or more ASCII digits whose value fits in a
/// `u32`, and then that value.
#[verifier::external_body]
pub(crate) fn parse_u32(s: &str) -> (res: Result<u32, std::num::ParseIntError>)
    ensures
        match res {
            Ok(v) => decimal_u32(s.spec_bytes()) == Some(v),
            Err(_) => decimal_u32(s.spec_bytes()) is None,
        },
{
    s.parse::<u32>()
}

/// `str::parse::<u8>`: success exactly on an optional `+` followed by one
/// or more ASCII digits whose value fits in a `u8`, and then that value.
#[verifier::external_body]
pub(crate) fn parse_u8(s: &str) -> (res: Result<u8, std::num::ParseIntError>)
    ensures
        match res {
            Ok(v) => decimal_u8(s.spec_bytes()) == Some(v),
            Err(_) => decimal_u8(s.spec_bytes()) is None,
        },
{
    s.parse::<u8>()
}

/// `str::parse::<u16>`: success exactly on an optional `+` followed by one
/// or more ASCII digits whose value fits in a `u16`, and then that value.
#[verifier::external_body]
pub(crate) fn parse_u16(s: &str) -> (res: Result<u16, std::num::ParseIntError>)
    ensures
        match res {
            Ok(v) => decimal_u16(s.spec_bytes()) == Some(v),
            Err(_) => decimal_u16(s.spec_bytes()) is None,
        },
{
    s.parse::<u16>()
}

} // verus!
