//! Byte-string helpers that the object encodings are built from: decimal
//! numbers, searching, splitting and joining on a separator, and the
//! lexicographic order.

use vstd::prelude::*;
use vstd::slice::slice_subrange;
use vstd::slice::slice_to_vec;

verus! {

/// The byte `0-9`.
pub open spec fn is_digit(b: u8) -> bool {
    0x30 <= b <= 0x39
}

/// The decimal rendering of `n`, without sign or leading zeros.
pub open spec fn decimal(n: nat) -> Seq<u8>
    decreases n,
{
    if n < 10 {
        seq![(0x30 + n) as u8]
    } else {
        decimal(n / 10).push((0x30 + n % 10) as u8)
    }
}

/// The number that a sequence of decimal digits stands for.
pub open spec fn decimal_value(s: Seq<u8>) -> nat
    decreases s.len(),
{
    if s.len() == 0 {
        0
    } else {
        decimal_value(s.drop_last()) * 10 + (s.last() - 0x30) as nat
    }
}

/// `s` is a non-empty run of decimal digits.
pub open spec fn is_decimal(s: Seq<u8>) -> bool {
    &&& s.len() > 0
    &&& forall|i: int| 0 <= i < s.len() ==> is_digit(#[trigger] s[i])
}

/// What a decimal field parses to: its value if it is a run of digits that
/// fits 32 bits.
pub open spec fn parse_u32(s: Seq<u8>) -> Option<u32> {
    if is_decimal(s) && decimal_value(s) <= u32::MAX {
        Some(decimal_value(s) as u32)
    } else {
        None
    }
}

/// A decimal rendering is a non-empty run of digits.
pub proof fn lemma_decimal_is_decimal(n: nat)
    ensures
        is_decimal(decimal(n)),
    decreases n,
{
    if n >= 10 {
        lemma_decimal_is_decimal(n / 10);
    }
}

/// Reading a decimal rendering gives the number back.
pub proof fn lemma_decimal_value(n: nat)
    ensures
        decimal_value(decimal(n)) == n,
    decreases n,
{
    if n < 10 {
        assert(decimal(n).drop_last() =~= Seq::<u8>::empty());
        assert(decimal_value(decimal(n).drop_last()) == 0);
    } else {
        lemma_decimal_value(n / 10);
        assert(decimal(n).drop_last() =~= decimal(n / 10));
    }
}

/// Appends the decimal rendering of `n` to `buf`.
pub fn push_decimal(buf: &mut Vec<u8>, n: u64)
    ensures
        final(buf)@ == old(buf)@ + decimal(n as nat),
    decreases n,
{
    if n >= 10 {
        push_decimal(buf, n / 10);
    }
    let d: u8 = (n % 10) as u8;
    buf.push(0x30 + d);
    proof {
        if n < 10 {
            assert(final(buf)@ =~= old(buf)@ + decimal(n as nat));
        } else {
            assert(final(buf)@ =~= old(buf)@ + decimal(n as nat));
        }
    }
}

/// The digits read so far never stand for more than all the digits do.
proof fn lemma_decimal_value_mono(s: Seq<u8>, k: int)
    requires
        0 <= k <= s.len(),
        forall|i: int| 0 <= i < s.len() ==> is_digit(#[trigger] s[i]),
    ensures
        decimal_value(s.take(k)) <= decimal_value(s),
    decreases s.len() - k,
{
    if k == s.len() {
        assert(s.take(k) =~= s);
    } else {
        lemma_decimal_value_mono(s, k + 1);
        assert(s.take(k + 1).drop_last() =~= s.take(k));
    }
}

/// Parses a decimal field.
pub fn parse_decimal(s: &[u8]) -> (out: Option<u32>)
    ensures
        out == parse_u32(s@),
{
    if s.len() == 0 {
        return None;
    }
    let mut value: u32 = 0;
    let mut i: usize = 0;
    while i < s.len()
        invariant
            0 <= i <= s.len(),
            forall|j: int| 0 <= j < i ==> is_digit(#[trigger] s@[j]),
            value == decimal_value(s@.take(i as int)),
        decreases s.len() - i,
    {
        let b: u8 = s[i];
        if b < 0x30 || b > 0x39 {
            return None;
        }
        let d: u32 = (b - 0x30) as u32;
        proof {
            assert(s@.take(i + 1).drop_last() =~= s@.take(i as int));
            if is_decimal(s@) {
                lemma_decimal_value_mono(s@, i + 1);
            }
        }
        if value > (u32::MAX - d) / 10 {
            return None;
        }
        value = value * 10 + d;
        i += 1;
    }
    proof {
        assert(s@.take(i as int) =~= s@);
    }
    Some(value)
}

/// The index of the first `b` in `s`, or the length of `s` if it holds none.
pub open spec fn find_byte(s: Seq<u8>, b: u8) -> int
    decreases s.len(),
{
    if s.len() == 0 {
        0
    } else if s[0] == b {
        0
    } else {
        1 + find_byte(s.drop_first(), b)
    }
}

/// `find_byte` is within bounds, passes over no `b`, and stops on one.
pub proof fn lemma_find_byte(s: Seq<u8>, b: u8)
    ensures
        0 <= find_byte(s, b) <= s.len(),
        forall|j: int| 0 <= j < find_byte(s, b) ==> #[trigger] s[j] != b,
        find_byte(s, b) < s.len() ==> s[find_byte(s, b)] == b,
    decreases s.len(),
{
    if s.len() > 0 && s[0] != b {
        let t = s.drop_first();
        lemma_find_byte(t, b);
        assert forall|j: int| 0 <= j < find_byte(s, b) implies #[trigger] s[j] != b by {
            if j > 0 {
                assert(s[j] == t[j - 1]);
            }
        }
    }
}

/// An index that passes over no `b` and stops on one, or on the end, is the
/// one that `find_byte` gives.
pub proof fn lemma_find_byte_is(s: Seq<u8>, b: u8, i: int)
    requires
        0 <= i <= s.len(),
        forall|j: int| 0 <= j < i ==> #[trigger] s[j] != b,
        i < s.len() ==> s[i] == b,
    ensures
        find_byte(s, b) == i,
{
    lemma_find_byte(s, b);
    let k = find_byte(s, b);
    if k < i {
        assert(s[k] != b);
    } else if i < k {
        assert(s[i] != b);
    }
}

/// `s` holds no `b`.
pub open spec fn free_of(s: Seq<u8>, b: u8) -> bool {
    forall|j: int| 0 <= j < s.len() ==> #[trigger] s[j] != b
}

/// Finds the first `b` in `s`.
pub fn find(s: &[u8], b: u8) -> (i: usize)
    ensures
        i == find_byte(s@, b),
        i <= s@.len(),
{
    let mut i: usize = 0;
    while i < s.len() && s[i] != b
        invariant
            0 <= i <= s.len(),
            forall|j: int| 0 <= j < i ==> #[trigger] s@[j] != b,
        decreases s.len() - i,
    {
        i += 1;
    }
    proof {
        lemma_find_byte_is(s@, b, i as int);
    }
    i
}

/// An owned copy of `s[from..to]`.
pub fn copy_range(s: &[u8], from: usize, to: usize) -> (out: Vec<u8>)
    requires
        from <= to <= s@.len(),
    ensures
        out@ == s@.subrange(from as int, to as int),
{
    slice_to_vec(slice_subrange(s, from, to))
}

/// An owned copy of `s`.
pub fn copy_bytes(s: &[u8]) -> (out: Vec<u8>)
    ensures
        out@ == s@,
{
    slice_to_vec(s)
}

/// Whether two byte strings are equal.
pub fn same_bytes(a: &[u8], b: &[u8]) -> (out: bool)
    ensures
        out == (a@ == b@),
{
    if a.len() != b.len() {
        return false;
    }
    let mut i: usize = 0;
    while i < a.len()
        invariant
            0 <= i <= a.len(),
            a.len() == b.len(),
            forall|j: int| 0 <= j < i ==> a@[j] == b@[j],
        decreases a.len() - i,
    {
        if a[i] != b[i] {
            return false;
        }
        i += 1;
    }
    proof {
        assert(a@ =~= b@);
    }
    true
}

/// `p` is a prefix of `s`.
pub open spec fn has_prefix(s: Seq<u8>, p: Seq<u8>) -> bool {
    p.len() <= s.len() && s.take(p.len() as int) == p
}

/// Whether `s` starts with `p`.
pub fn starts_with(s: &[u8], p: &[u8]) -> (out: bool)
    ensures
        out == has_prefix(s@, p@),
{
    if p.len() > s.len() {
        return false;
    }
    same_bytes(slice_subrange(s, 0, p.len()), p)
}

/// The views of a list of byte strings.
pub open spec fn views(v: Seq<Vec<u8>>) -> Seq<Seq<u8>> {
    v.map_values(|x: Vec<u8>| x@)
}

/// The pieces of `s` between occurrences of `sep`: one more piece than
/// there are separators, so never an empty list.
pub open spec fn split(s: Seq<u8>, sep: u8) -> Seq<Seq<u8>>
    decreases s.len(),
{
    let i = find_byte(s, sep);
    if 0 <= i < s.len() {
        seq![s.take(i)] + split(s.skip(i + 1), sep)
    } else {
        seq![s]
    }
}

/// The pieces put together again with `sep` between neighbours.
pub open spec fn join(parts: Seq<Seq<u8>>, sep: u8) -> Seq<u8>
    decreases parts.len(),
{
    if parts.len() == 0 {
        Seq::empty()
    } else if parts.len() == 1 {
        parts[0]
    } else {
        parts[0] + seq![sep] + join(parts.drop_first(), sep)
    }
}

/// No piece holds `sep`.
pub open spec fn all_free_of(parts: Seq<Seq<u8>>, sep: u8) -> bool {
    forall|k: int| 0 <= k < parts.len() ==> free_of(#[trigger] parts[k], sep)
}

/// Joining and splitting again gives the pieces back, provided that no piece
/// holds the separator.
pub proof fn lemma_split_join(parts: Seq<Seq<u8>>, sep: u8)
    requires
        parts.len() >= 1,
        all_free_of(parts, sep),
    ensures
        split(join(parts, sep), sep) == parts,
    decreases parts.len(),
{
    let s = join(parts, sep);
    if parts.len() == 1 {
        assert(free_of(parts[0], sep));
        lemma_find_byte_is(s, sep, s.len() as int);
        assert(split(s, sep) =~= parts);
    } else {
        let rest = parts.drop_first();
        assert forall|k: int| 0 <= k < rest.len() implies free_of(#[trigger] rest[k], sep) by {
            assert(rest[k] == parts[k + 1]);
        }
        lemma_split_join(rest, sep);
        let i = parts[0].len() as int;
        assert(free_of(parts[0], sep));
        assert(s[i] == sep);
        lemma_find_byte_is(s, sep, i);
        assert(s.take(i) =~= parts[0]);
        assert(s.skip(i + 1) =~= join(rest, sep));
        assert(split(s, sep) =~= parts);
    }
}

/// Joining one more piece appends the separator and the piece.
pub proof fn lemma_join_push(parts: Seq<Seq<u8>>, last: Seq<u8>, sep: u8)
    requires
        parts.len() >= 1,
    ensures
        join(parts.push(last), sep) == join(parts, sep) + seq![sep] + last,
    decreases parts.len(),
{
    let all = parts.push(last);
    if parts.len() == 1 {
        assert(all.drop_first() =~= seq![last]);
        assert(join(all.drop_first(), sep) == last);
    } else {
        lemma_join_push(parts.drop_first(), last, sep);
        assert(all.drop_first() =~= parts.drop_first().push(last));
        assert(join(all, sep) =~= join(parts, sep) + seq![sep] + last);
    }
}

/// Splits `s` on `sep`.
pub fn split_on(s: &[u8], sep: u8) -> (out: Vec<Vec<u8>>)
    ensures
        views(out@) == split(s@, sep),
{
    let mut out: Vec<Vec<u8>> = Vec::new();
    let mut start: usize = 0;
    proof {
        assert(s@.skip(0) =~= s@);
        assert(views(out@) + split(s@, sep) =~= split(s@, sep));
    }
    loop
        invariant
            0 <= start <= s.len(),
            split(s@, sep) == views(out@) + split(s@.skip(start as int), sep),
        decreases s.len() - start,
    {
        let rest = slice_subrange(s, start, s.len());
        let i: usize = find(rest, sep);
        proof {
            assert(rest@ =~= s@.skip(start as int));
        }
        if i >= rest.len() {
            let piece = copy_bytes(rest);
            let ghost before = views(out@);
            out.push(piece);
            proof {
                assert(views(out@) =~= before.push(rest@));
                assert(split(s@, sep) =~= views(out@));
            }
            return out;
        }
        let piece = copy_range(rest, 0, i);
        let ghost before = views(out@);
        out.push(piece);
        proof {
            assert(views(out@) =~= before.push(rest@.take(i as int)));
            assert(rest@.skip(i + 1) =~= s@.skip(start + i + 1));
            assert(split(s@, sep) =~= views(out@) + split(s@.skip(start + i + 1), sep));
        }
        start = start + i + 1;
    }
}

/// The lexicographic order on byte strings: `a` comes before `b`, or equals it.
pub open spec fn lex_le(a: Seq<u8>, b: Seq<u8>) -> bool
    decreases a.len(),
{
    if a.len() == 0 {
        true
    } else if b.len() == 0 {
        false
    } else if a[0] != b[0] {
        a[0] < b[0]
    } else {
        lex_le(a.drop_first(), b.drop_first())
    }
}

/// Every byte string stands before itself, or equals it.
pub proof fn lemma_lex_le_refl(a: Seq<u8>)
    ensures
        lex_le(a, a),
    decreases a.len(),
{
    if a.len() > 0 {
        lemma_lex_le_refl(a.drop_first());
    }
}

/// Two byte strings that each stand before the other are equal.
pub proof fn lemma_lex_le_antisym(a: Seq<u8>, b: Seq<u8>)
    requires
        lex_le(a, b),
        lex_le(b, a),
    ensures
        a == b,
    decreases a.len(),
{
    if a.len() == 0 || b.len() == 0 {
        assert(a =~= b);
    } else {
        lemma_lex_le_antisym(a.drop_first(), b.drop_first());
        assert(a =~= seq![a[0]] + a.drop_first());
        assert(b =~= seq![b[0]] + b.drop_first());
    }
}

/// The lexicographic order is transitive.
pub proof fn lemma_lex_le_trans(a: Seq<u8>, b: Seq<u8>, c: Seq<u8>)
    requires
        lex_le(a, b),
        lex_le(b, c),
    ensures
        lex_le(a, c),
    decreases a.len(),
{
    if a.len() > 0 && b.len() > 0 && c.len() > 0 {
        if a[0] == b[0] && b[0] == c[0] {
            lemma_lex_le_trans(a.drop_first(), b.drop_first(), c.drop_first());
        }
    }
}

/// Of two byte strings, one stands before the other.
pub proof fn lemma_lex_le_total(a: Seq<u8>, b: Seq<u8>)
    ensures
        lex_le(a, b) || lex_le(b, a),
    decreases a.len(),
{
    if a.len() > 0 && b.len() > 0 && a[0] == b[0] {
        lemma_lex_le_total(a.drop_first(), b.drop_first());
    }
}

/// Whether `a` comes before `b` in the lexicographic order, or equals it.
pub fn lex_le_bytes(a: &[u8], b: &[u8]) -> (out: bool)
    ensures
        out == lex_le(a@, b@),
{
    let mut i: usize = 0;
    proof {
        assert(a@.skip(0) =~= a@);
        assert(b@.skip(0) =~= b@);
    }
    while i < a.len() && i < b.len()
        invariant
            0 <= i <= a.len(),
            i <= b.len(),
            lex_le(a@, b@) == lex_le(a@.skip(i as int), b@.skip(i as int)),
        decreases a.len() - i,
    {
        proof {
            assert(a@.skip(i as int).drop_first() =~= a@.skip(i + 1));
            assert(b@.skip(i as int).drop_first() =~= b@.skip(i + 1));
            assert(a@.skip(i as int)[0] == a@[i as int]);
            assert(b@.skip(i as int)[0] == b@[i as int]);
        }
        if a[i] != b[i] {
            return a[i] < b[i];
        }
        i += 1;
    }
    i >= a.len()
}

} // verus!
