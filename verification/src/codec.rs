//! Big-endian integers and length-prefixed blocks: the framing shared by the
//! directory, relay and group codecs.
//!
//! Every reader here is paired with a writer, and each pair comes with two
//! lemmas: reading what was written gives it back (`lemma_take_*_of`), and
//! whatever a reader accepts is exactly what the writer would have produced
//! (`lemma_take_*_inv`).
use vstd::prelude::*;

verus! {

/// Two bytes, most significant first.
pub open spec fn be16(n: u16) -> Seq<u8> {
    seq![(n >> 8u16) as u8, n as u8]
}

/// Four bytes, most significant first.
pub open spec fn be32(n: u32) -> Seq<u8> {
    seq![(n >> 24u32) as u8, (n >> 16u32) as u8, (n >> 8u32) as u8, n as u8]
}

/// Eight bytes, most significant first.
pub open spec fn be64(n: u64) -> Seq<u8> {
    seq![
        (n >> 56u64) as u8, (n >> 48u64) as u8, (n >> 40u64) as u8, (n >> 32u64) as u8,
        (n >> 24u64) as u8, (n >> 16u64) as u8, (n >> 8u64) as u8, n as u8,
    ]
}

/// The value of two big-endian bytes.
pub open spec fn u16_of(s: Seq<u8>) -> u16 {
    ((s[0] as u16) << 8u16) | (s[1] as u16)
}

/// The value of four big-endian bytes.
pub open spec fn u32_of(s: Seq<u8>) -> u32 {
    ((s[0] as u32) << 24u32) | ((s[1] as u32) << 16u32) | ((s[2] as u32) << 8u32) | (s[3] as u32)
}

/// The value of eight big-endian bytes.
pub open spec fn u64_of(s: Seq<u8>) -> u64 {
    ((s[0] as u64) << 56u64) | ((s[1] as u64) << 48u64) | ((s[2] as u64) << 40u64)
        | ((s[3] as u64) << 32u64) | ((s[4] as u64) << 24u64) | ((s[5] as u64) << 16u64)
        | ((s[6] as u64) << 8u64) | (s[7] as u64)
}

/// A block behind its four-byte big-endian length.
pub open spec fn lp(b: Seq<u8>) -> Seq<u8> {
    be32(b.len() as u32) + b
}

/// Reading a big-endian `u32` off the front of `s`.
pub open spec fn take_u32_spec(s: Seq<u8>) -> Option<(u32, Seq<u8>)> {
    if s.len() >= 4 {
        Some((u32_of(s.take(4)), s.skip(4)))
    } else {
        None
    }
}

/// Reading a big-endian `u64` off the front of `s`.
pub open spec fn take_u64_spec(s: Seq<u8>) -> Option<(u64, Seq<u8>)> {
    if s.len() >= 8 {
        Some((u64_of(s.take(8)), s.skip(8)))
    } else {
        None
    }
}

/// Reading a `u32`-length-prefixed block off the front of `s`.
pub open spec fn take_bytes_spec(s: Seq<u8>) -> Option<(Seq<u8>, Seq<u8>)> {
    match take_u32_spec(s) {
        Some((n, rest)) => if n <= rest.len() {
            Some((rest.take(n as int), rest.skip(n as int)))
        } else {
            None
        },
        None => None,
    }
}

pub proof fn lemma_u16_roundtrip(n: u16)
    ensures
        u16_of(be16(n)) == n,
        be16(n).len() == 2,
{
    assert((((((n >> 8u16) as u8) as u16) << 8u16) | (((n as u8) as u16))) == n) by (bit_vector);
}

pub proof fn lemma_be16_of(s: Seq<u8>)
    requires
        s.len() == 2,
    ensures
        be16(u16_of(s)) == s,
{
    let b0 = s[0];
    let b1 = s[1];
    assert((((((b0 as u16) << 8u16) | (b1 as u16)) >> 8u16) as u8 == b0) && ((((b0 as u16) << 8u16)
        | (b1 as u16)) as u8 == b1)) by (bit_vector);
    assert(be16(u16_of(s)) =~= s);
}

pub proof fn lemma_u32_roundtrip(n: u32)
    ensures
        u32_of(be32(n)) == n,
        be32(n).len() == 4,
{
    assert(((((n >> 24u32) as u8) as u32) << 24u32) | ((((n >> 16u32) as u8) as u32) << 16u32)
        | ((((n >> 8u32) as u8) as u32) << 8u32) | ((n as u8) as u32) == n) by (bit_vector);
}

pub proof fn lemma_be32_of(s: Seq<u8>)
    requires
        s.len() == 4,
    ensures
        be32(u32_of(s)) == s,
{
    let b0 = s[0];
    let b1 = s[1];
    let b2 = s[2];
    let b3 = s[3];
    let v = u32_of(s);
    assert(v == ((b0 as u32) << 24u32) | ((b1 as u32) << 16u32) | ((b2 as u32) << 8u32) | (b3 as u32));
    assert(v == ((b0 as u32) << 24u32) | ((b1 as u32) << 16u32) | ((b2 as u32) << 8u32) | (b3 as u32)
        ==> (v >> 24u32) as u8 == b0 && (v >> 16u32) as u8 == b1 && (v >> 8u32) as u8 == b2 && v as u8
        == b3) by (bit_vector);
    assert(be32(u32_of(s)) =~= s);
}

pub proof fn lemma_u64_roundtrip(n: u64)
    ensures
        u64_of(be64(n)) == n,
        be64(n).len() == 8,
{
    assert(((((n >> 56u64) as u8) as u64) << 56u64) | ((((n >> 48u64) as u8) as u64) << 48u64)
        | ((((n >> 40u64) as u8) as u64) << 40u64) | ((((n >> 32u64) as u8) as u64) << 32u64)
        | ((((n >> 24u64) as u8) as u64) << 24u64) | ((((n >> 16u64) as u8) as u64) << 16u64)
        | ((((n >> 8u64) as u8) as u64) << 8u64) | ((n as u8) as u64) == n) by (bit_vector);
}

pub proof fn lemma_be64_of(s: Seq<u8>)
    requires
        s.len() == 8,
    ensures
        be64(u64_of(s)) == s,
{
    let b0 = s[0];
    let b1 = s[1];
    let b2 = s[2];
    let b3 = s[3];
    let b4 = s[4];
    let b5 = s[5];
    let b6 = s[6];
    let b7 = s[7];
    let v = u64_of(s);
    assert(v == ((b0 as u64) << 56u64) | ((b1 as u64) << 48u64) | ((b2 as u64) << 40u64) | ((b3 as u64)
        << 32u64) | ((b4 as u64) << 24u64) | ((b5 as u64) << 16u64) | ((b6 as u64) << 8u64) | (b7 as u64));
    assert(v == ((b0 as u64) << 56u64) | ((b1 as u64) << 48u64) | ((b2 as u64) << 40u64) | ((b3 as u64)
        << 32u64) | ((b4 as u64) << 24u64) | ((b5 as u64) << 16u64) | ((b6 as u64) << 8u64) | (b7 as u64)
        ==> (v >> 56u64) as u8 == b0 && (v >> 48u64) as u8 == b1 && (v >> 40u64) as u8 == b2 && (v
        >> 32u64) as u8 == b3 && (v >> 24u64) as u8 == b4 && (v >> 16u64) as u8 == b5 && (v >> 8u64) as u8
        == b6 && v as u8 == b7) by (bit_vector);
    assert(be64(u64_of(s)) =~= s);
}

/// Reading a `u32` off a written one gives it back, with the rest untouched.
pub proof fn lemma_take_u32_of(n: u32, rest: Seq<u8>)
    ensures
        take_u32_spec(be32(n) + rest) == Some((n, rest)),
{
    lemma_u32_roundtrip(n);
    assert((be32(n) + rest).take(4) =~= be32(n));
    assert((be32(n) + rest).skip(4) =~= rest);
}

/// What `take_u32_spec` accepts is a written `u32` followed by the rest.
pub proof fn lemma_take_u32_inv(s: Seq<u8>)
    requires
        take_u32_spec(s) is Some,
    ensures
        s == be32(take_u32_spec(s).unwrap().0) + take_u32_spec(s).unwrap().1,
{
    lemma_be32_of(s.take(4));
    assert(s =~= s.take(4) + s.skip(4));
}

pub proof fn lemma_take_u64_of(n: u64, rest: Seq<u8>)
    ensures
        take_u64_spec(be64(n) + rest) == Some((n, rest)),
{
    lemma_u64_roundtrip(n);
    assert((be64(n) + rest).take(8) =~= be64(n));
    assert((be64(n) + rest).skip(8) =~= rest);
}

pub proof fn lemma_take_u64_inv(s: Seq<u8>)
    requires
        take_u64_spec(s) is Some,
    ensures
        s == be64(take_u64_spec(s).unwrap().0) + take_u64_spec(s).unwrap().1,
{
    lemma_be64_of(s.take(8));
    assert(s =~= s.take(8) + s.skip(8));
}

/// Reading a block off a written one gives it back, with the rest untouched.
pub proof fn lemma_take_bytes_of(b: Seq<u8>, rest: Seq<u8>)
    requires
        b.len() <= u32::MAX,
    ensures
        take_bytes_spec(lp(b) + rest) == Some((b, rest)),
{
    lemma_take_u32_of(b.len() as u32, b + rest);
    assert(lp(b) + rest =~= be32(b.len() as u32) + (b + rest));
    assert((b + rest).take(b.len() as int) =~= b);
    assert((b + rest).skip(b.len() as int) =~= rest);
}

/// What `take_bytes_spec` accepts is a written block followed by the rest.
pub proof fn lemma_take_bytes_inv(s: Seq<u8>)
    requires
        take_bytes_spec(s) is Some,
    ensures
        s == lp(take_bytes_spec(s).unwrap().0) + take_bytes_spec(s).unwrap().1,
        take_bytes_spec(s).unwrap().0.len() <= u32::MAX,
{
    lemma_take_u32_inv(s);
    let (n, rest) = take_u32_spec(s).unwrap();
    let b = rest.take(n as int);
    assert(b.len() == n);
    assert(rest =~= b + rest.skip(n as int));
    assert(s =~= lp(b) + rest.skip(n as int));
}

/// Blocks one after another, each behind its `u32` length.
#[verifier::opaque]
pub open spec fn lps(bs: Seq<Seq<u8>>) -> Seq<u8>
    decreases bs.len(),
{
    if bs.len() == 0 {
        Seq::empty()
    } else {
        lp(bs[0]) + lps(bs.drop_first())
    }
}

/// Every block fits a `u32` length.
pub open spec fn blocks_ok(bs: Seq<Seq<u8>>) -> bool {
    forall|i: int| 0 <= i < bs.len() ==> (#[trigger] bs[i]).len() <= u32::MAX
}

/// Reading `n` length-prefixed blocks off the front of `s`.
#[verifier::opaque]
pub open spec fn take_lps_spec(n: nat, s: Seq<u8>) -> Option<(Seq<Seq<u8>>, Seq<u8>)>
    decreases n,
{
    if n == 0 {
        Some((Seq::empty(), s))
    } else {
        match take_bytes_spec(s) {
            Some((b, r)) => match take_lps_spec((n - 1) as nat, r) {
                Some((bs, r2)) => Some((seq![b] + bs, r2)),
                None => None,
            },
            None => None,
        }
    }
}

pub proof fn lemma_lps_push(bs: Seq<Seq<u8>>, b: Seq<u8>)
    ensures
        lps(bs.push(b)) == lps(bs) + lp(b),
    decreases bs.len(),
{
    reveal(lps);
    reveal(take_lps_spec);
    if bs.len() == 0 {
        assert(bs.push(b).drop_first() =~= Seq::<Seq<u8>>::empty());
        assert(bs.push(b)[0] == b);
        assert(lps(bs.push(b).drop_first()) == Seq::<u8>::empty());
        assert(lps(bs) == Seq::<u8>::empty());
        assert(lps(bs.push(b)) =~= lps(bs) + lp(b));
    } else {
        lemma_lps_push(bs.drop_first(), b);
        assert(bs.push(b).drop_first() =~= bs.drop_first().push(b));
        assert(bs.push(b)[0] == bs[0]);
        assert(lps(bs.push(b)) == lp(bs[0]) + lps(bs.drop_first().push(b)));
        assert(lp(bs[0]) + (lps(bs.drop_first()) + lp(b)) =~= (lp(bs[0]) + lps(bs.drop_first())) + lp(b));
    }
}

/// `lps` one step at a time.
pub proof fn lemma_lps_unfold(bs: Seq<Seq<u8>>)
    ensures
        bs.len() == 0 ==> lps(bs) == Seq::<u8>::empty(),
        bs.len() > 0 ==> lps(bs) == lp(bs[0]) + lps(bs.drop_first()),
{
    reveal(lps);
}

#[verifier::spinoff_prover]
#[verifier::rlimit(40)]
pub proof fn lemma_take_lps_of(bs: Seq<Seq<u8>>, rest: Seq<u8>)
    requires
        blocks_ok(bs),
    ensures
        take_lps_spec(bs.len(), lps(bs) + rest) == Some((bs, rest)),
    decreases bs.len(),
{
    reveal(take_lps_spec);
    lemma_lps_unfold(bs);
    if bs.len() == 0 {
        assert(lps(bs) + rest =~= rest);
        assert(bs =~= Seq::<Seq<u8>>::empty());
    } else {
        let tail = bs.drop_first();
        assert(blocks_ok(tail)) by {
            assert forall|i: int| 0 <= i < tail.len() implies (#[trigger] tail[i]).len() <= u32::MAX by {
                assert(tail[i] == bs[i + 1]);
            }
        }
        lemma_take_lps_of(tail, rest);
        assert(bs[0].len() <= u32::MAX);
        lemma_take_bytes_of(bs[0], lps(tail) + rest);
        assert(lps(bs) == lp(bs[0]) + lps(tail));
        assert(lps(bs) + rest =~= lp(bs[0]) + (lps(tail) + rest));
        assert(take_bytes_spec(lps(bs) + rest) == Some((bs[0], lps(tail) + rest)));
        assert(take_lps_spec((bs.len() - 1) as nat, lps(tail) + rest) == Some((tail, rest)));
        assert(seq![bs[0]] + tail =~= bs);
    }
}

#[verifier::spinoff_prover]
#[verifier::rlimit(40)]
pub proof fn lemma_take_lps_inv(n: nat, s: Seq<u8>)
    requires
        take_lps_spec(n, s) is Some,
    ensures
        s == lps(take_lps_spec(n, s).unwrap().0) + take_lps_spec(n, s).unwrap().1,
        take_lps_spec(n, s).unwrap().0.len() == n,
        blocks_ok(take_lps_spec(n, s).unwrap().0),
    decreases n,
{
    reveal(take_lps_spec);
    if n == 0 {
        lemma_lps_unfold(Seq::empty());
        assert(s =~= lps(Seq::empty()) + s);
    } else {
        let (b, r) = take_bytes_spec(s).unwrap();
        lemma_take_bytes_inv(s);
        lemma_take_lps_inv((n - 1) as nat, r);
        let (bs, r2) = take_lps_spec((n - 1) as nat, r).unwrap();
        let all = seq![b] + bs;
        assert(all.drop_first() =~= bs);
        assert(all[0] == b);
        lemma_lps_unfold(all);
        assert(lps(all) == lp(b) + lps(bs));
        assert(s =~= lps(all) + r2);
        assert forall|i: int| 0 <= i < all.len() implies (#[trigger] all[i]).len() <= u32::MAX by {
            if i > 0 {
                assert(all[i] == bs[i - 1]);
            }
        }
    }
}

/// The views of a list of blocks.
pub open spec fn blocks_view(bs: Seq<Vec<u8>>) -> Seq<Seq<u8>> {
    bs.map_values(|b: Vec<u8>| b@)
}

/// Blocks already read, in front of what a further read yields.
pub open spec fn prepend_blocks(
    acc: Seq<Seq<u8>>,
    r: Option<(Seq<Seq<u8>>, Seq<u8>)>,
) -> Option<(Seq<Seq<u8>>, Seq<u8>)> {
    match r {
        Some((bs, rest)) => Some((acc + bs, rest)),
        None => None,
    }
}

/// `take_lps_spec` one step at a time.
pub proof fn lemma_take_lps_unfold(n: nat, s: Seq<u8>)
    ensures
        n == 0 ==> take_lps_spec(n, s) == Some((Seq::<Seq<u8>>::empty(), s)),
        n > 0 ==> take_lps_spec(n, s) == match take_bytes_spec(s) {
            Some((b, r)) => prepend_blocks(seq![b], take_lps_spec((n - 1) as nat, r)),
            None => None,
        },
{
    reveal(take_lps_spec);
}

/// Read `n` length-prefixed blocks off the front; `None` if any is cut short.
/// Nothing is reserved from the count: a count larger than the input runs out
/// of input and fails.
pub fn take_blocks(n: u64, bytes: &[u8]) -> (r: Option<(Vec<Vec<u8>>, &[u8])>)
    ensures
        match r {
            Some((v, rest)) => take_lps_spec(n as nat, bytes@) == Some((blocks_view(v@), rest@)),
            None => take_lps_spec(n as nat, bytes@) is None,
        },
{
    let mut acc: Vec<Vec<u8>> = Vec::new();
    let mut cur = bytes;
    let mut i: u64 = 0;
    assert(blocks_view(acc@) + Seq::empty() =~= blocks_view(acc@));
    proof {
        lemma_take_lps_unfold(0, cur@);
    }
    while i < n
        invariant
            i <= n,
            take_lps_spec(n as nat, bytes@) == prepend_blocks(
                blocks_view(acc@),
                take_lps_spec((n - i) as nat, cur@),
            ),
        decreases n - i,
    {
        proof {
            lemma_take_lps_unfold((n - i) as nat, cur@);
        }
        let (b, rest) = match take_bytes(cur) {
            Some(p) => p,
            None => return None,
        };
        let ghost old_acc = blocks_view(acc@);
        acc.push(to_vec(b));
        proof {
            assert(blocks_view(acc@) =~= old_acc.push(b@));
            match take_lps_spec((n - i - 1) as nat, rest@) {
                Some((bs, r2)) => {
                    assert(old_acc + (seq![b@] + bs) =~= old_acc.push(b@) + bs);
                },
                None => {},
            }
        }
        cur = rest;
        i = i + 1;
    }
    proof {
        lemma_take_lps_unfold(0, cur@);
        assert(blocks_view(acc@) + Seq::empty() =~= blocks_view(acc@));
    }
    Some((acc, cur))
}

/// Append `bytes` to `out`.
pub fn extend(out: &mut Vec<u8>, bytes: &[u8])
    ensures
        final(out)@ == old(out)@ + bytes@,
{
    let ghost start = out@;
    let mut i: usize = 0;
    while i < bytes.len()
        invariant
            0 <= i <= bytes@.len(),
            out@ == start + bytes@.take(i as int),
        decreases bytes@.len() - i,
    {
        out.push(bytes[i]);
        i = i + 1;
        assert(out@ =~= start + bytes@.take(i as int));
    }
    assert(bytes@.take(i as int) =~= bytes@);
}

/// A fresh vector holding exactly `bytes`.
pub fn to_vec(bytes: &[u8]) -> (v: Vec<u8>)
    ensures
        v@ == bytes@,
{
    let mut v = Vec::new();
    extend(&mut v, bytes);
    v
}

/// Append a big-endian `u16`.
pub fn put_u16(out: &mut Vec<u8>, n: u16)
    ensures
        final(out)@ == old(out)@ + be16(n),
{
    let ghost start = out@;
    out.push((n >> 8) as u8);
    out.push(n as u8);
    assert(out@ =~= start + be16(n));
}

/// Append a big-endian `u32`.
pub fn put_u32(out: &mut Vec<u8>, n: u32)
    ensures
        final(out)@ == old(out)@ + be32(n),
{
    let ghost start = out@;
    out.push((n >> 24) as u8);
    out.push((n >> 16) as u8);
    out.push((n >> 8) as u8);
    out.push(n as u8);
    assert(out@ =~= start + be32(n));
}

/// Append a big-endian `u64`.
pub fn put_u64(out: &mut Vec<u8>, n: u64)
    ensures
        final(out)@ == old(out)@ + be64(n),
{
    let ghost start = out@;
    out.push((n >> 56) as u8);
    out.push((n >> 48) as u8);
    out.push((n >> 40) as u8);
    out.push((n >> 32) as u8);
    out.push((n >> 24) as u8);
    out.push((n >> 16) as u8);
    out.push((n >> 8) as u8);
    out.push(n as u8);
    assert(out@ =~= start + be64(n));
}

/// Append a block behind its `u32` length.
pub fn put_bytes(out: &mut Vec<u8>, bytes: &[u8])
    requires
        bytes@.len() <= u32::MAX,
    ensures
        final(out)@ == old(out)@ + lp(bytes@),
{
    let ghost start = out@;
    put_u32(out, bytes.len() as u32);
    extend(out, bytes);
    assert(out@ =~= start + lp(bytes@));
}

/// The value of `bytes[pos..pos + 2]`.
pub fn read_u16(bytes: &[u8], pos: usize) -> (n: u16)
    requires
        pos + 2 <= bytes@.len(),
    ensures
        n == u16_of(bytes@.subrange(pos as int, pos + 2)),
{
    ((bytes[pos] as u16) << 8) | (bytes[pos + 1] as u16)
}

/// The value of `bytes[pos..pos + 4]`.
pub fn read_u32(bytes: &[u8], pos: usize) -> (n: u32)
    requires
        pos + 4 <= bytes@.len(),
    ensures
        n == u32_of(bytes@.subrange(pos as int, pos + 4)),
{
    ((bytes[pos] as u32) << 24) | ((bytes[pos + 1] as u32) << 16) | ((bytes[pos + 2] as u32) << 8) | (
    bytes[pos + 3] as u32)
}

/// The value of `bytes[pos..pos + 8]`.
pub fn read_u64(bytes: &[u8], pos: usize) -> (n: u64)
    requires
        pos + 8 <= bytes@.len(),
    ensures
        n == u64_of(bytes@.subrange(pos as int, pos + 8)),
{
    ((bytes[pos] as u64) << 56) | ((bytes[pos + 1] as u64) << 48) | ((bytes[pos + 2] as u64) << 40) | ((
    bytes[pos + 3] as u64) << 32) | ((bytes[pos + 4] as u64) << 24) | ((bytes[pos + 5] as u64) << 16) | ((
    bytes[pos + 6] as u64) << 8) | (bytes[pos + 7] as u64)
}

/// Read a big-endian `u32` off the front; `None` if fewer than four bytes.
pub fn take_u32(bytes: &[u8]) -> (r: Option<(u32, &[u8])>)
    ensures
        match r {
            Some((n, rest)) => take_u32_spec(bytes@) == Some((n, rest@)),
            None => take_u32_spec(bytes@) is None,
        },
{
    if bytes.len() < 4 {
        return None;
    }
    let n = read_u32(bytes, 0);
    assert(bytes@.subrange(0, 4) =~= bytes@.take(4));
    let rest = &bytes[4..bytes.len()];
    assert(rest@ =~= bytes@.skip(4));
    Some((n, rest))
}

/// Read a big-endian `u64` off the front; `None` if fewer than eight bytes.
pub fn take_u64(bytes: &[u8]) -> (r: Option<(u64, &[u8])>)
    ensures
        match r {
            Some((n, rest)) => take_u64_spec(bytes@) == Some((n, rest@)),
            None => take_u64_spec(bytes@) is None,
        },
{
    if bytes.len() < 8 {
        return None;
    }
    let n = read_u64(bytes, 0);
    assert(bytes@.subrange(0, 8) =~= bytes@.take(8));
    let rest = &bytes[8..bytes.len()];
    assert(rest@ =~= bytes@.skip(8));
    Some((n, rest))
}

/// Read a `u32`-length-prefixed block off the front; `None` if the length or
/// the block is cut short.
pub fn take_bytes(bytes: &[u8]) -> (r: Option<(&[u8], &[u8])>)
    ensures
        match r {
            Some((b, rest)) => take_bytes_spec(bytes@) == Some((b@, rest@)),
            None => take_bytes_spec(bytes@) is None,
        },
{
    let (len, rest) = take_u32(bytes)?;
    if (len as usize) > rest.len() {
        return None;
    }
    let block = &rest[0..len as usize];
    let tail = &rest[len as usize..rest.len()];
    assert(block@ =~= rest@.take(len as int));
    assert(tail@ =~= rest@.skip(len as int));
    Some((block, tail))
}

} // verus!
