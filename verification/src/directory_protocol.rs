//! The directory's request/response protocol: register a device's public
//! material, look one up, stock its one-time pool, rotate or recover it,
//! attach a recovery key, or witness its persisted-state generation.
//!
//! A request is a one-byte tag, the device's address, then its fields, each
//! block behind a big-endian `u32` length. A response is a one-byte tag and,
//! for `Found` and `Deposited`, its fields. Exactly the byte strings the
//! encoders produce decode, and each decodes to what was encoded.
use crate::codec::{
    be32, blocks_view, take_blocks, lemma_lps_unfold, be64, blocks_ok, lemma_lps_push, lemma_take_bytes_inv, lemma_take_bytes_of,
    lemma_take_lps_inv, lemma_take_lps_of, lemma_take_u32_inv, lemma_take_u32_of,
    lemma_take_u64_inv, lemma_take_u64_of, lp, lps, put_bytes, put_u32, put_u64, take_bytes,
    take_bytes_spec, take_lps_spec, take_u32, take_u32_spec, take_u64, take_u64_spec, to_vec,
};
use crate::relay::{
    addr_bytes, addr_ok, lemma_take_addr_inv, lemma_take_addr_of, put_addr, take_addr,
    take_addr_spec, AddrV, DeviceAddr,
};
use vstd::prelude::*;

verus! {

/// A client's request to the directory.
#[derive(Clone, Debug, PartialEq, Eq)]
pub enum DirRequest {
    /// Publish `identity` and `bundle` for `device`, with `signature` over
    /// the connection's challenge proving possession of `identity`.
    Register { device: DeviceAddr, identity: Vec<u8>, bundle: Vec<u8>, signature: Vec<u8> },
    /// Ask for a device's published identity key and prekey bundle.
    Lookup { device: DeviceAddr },
    /// Stock a device's one-time bundle pool.
    DepositPrekeys { device: DeviceAddr, identity: Vec<u8>, bundles: Vec<Vec<u8>>, signature: Vec<u8> },
    /// Rotate `device`'s bound identity, authorized by the currently bound key.
    Rotate {
        device: DeviceAddr,
        new_identity: Vec<u8>,
        new_bundle: Vec<u8>,
        possession_sig: Vec<u8>,
        rotation_sig: Vec<u8>,
    },
    /// Attach a recovery key to `device`.
    SetRecovery { device: DeviceAddr, recovery: Vec<u8>, signature: Vec<u8> },
    /// Recover `device` with its recovery key when the identity key is lost.
    Recover {
        device: DeviceAddr,
        new_identity: Vec<u8>,
        new_bundle: Vec<u8>,
        possession_sig: Vec<u8>,
        recovery_sig: Vec<u8>,
    },
    /// Present `device`'s persisted-state `generation` to be witnessed.
    Witness { device: DeviceAddr, generation: u64, signature: Vec<u8> },
}

/// A request as a value: the address, and the blocks it carries in wire order.
pub enum DirRequestV {
    Register { device: AddrV, identity: Seq<u8>, bundle: Seq<u8>, signature: Seq<u8> },
    Lookup { device: AddrV },
    DepositPrekeys { device: AddrV, identity: Seq<u8>, bundles: Seq<Seq<u8>>, signature: Seq<u8> },
    Rotate {
        device: AddrV,
        new_identity: Seq<u8>,
        new_bundle: Seq<u8>,
        possession_sig: Seq<u8>,
        rotation_sig: Seq<u8>,
    },
    SetRecovery { device: AddrV, recovery: Seq<u8>, signature: Seq<u8> },
    Recover {
        device: AddrV,
        new_identity: Seq<u8>,
        new_bundle: Seq<u8>,
        possession_sig: Seq<u8>,
        recovery_sig: Seq<u8>,
    },
    Witness { device: AddrV, generation: u64, signature: Seq<u8> },
}

impl View for DirRequest {
    type V = DirRequestV;

    open spec fn view(&self) -> DirRequestV {
        match self {
            DirRequest::Register { device, identity, bundle, signature } => DirRequestV::Register {
                device: device@,
                identity: identity@,
                bundle: bundle@,
                signature: signature@,
            },
            DirRequest::Lookup { device } => DirRequestV::Lookup { device: device@ },
            DirRequest::DepositPrekeys { device, identity, bundles, signature } =>
                DirRequestV::DepositPrekeys {
                device: device@,
                identity: identity@,
                bundles: blocks_view(bundles@),
                signature: signature@,
            },
            DirRequest::Rotate { device, new_identity, new_bundle, possession_sig, rotation_sig } =>
                DirRequestV::Rotate {
                device: device@,
                new_identity: new_identity@,
                new_bundle: new_bundle@,
                possession_sig: possession_sig@,
                rotation_sig: rotation_sig@,
            },
            DirRequest::SetRecovery { device, recovery, signature } => DirRequestV::SetRecovery {
                device: device@,
                recovery: recovery@,
                signature: signature@,
            },
            DirRequest::Recover { device, new_identity, new_bundle, possession_sig, recovery_sig } =>
                DirRequestV::Recover {
                device: device@,
                new_identity: new_identity@,
                new_bundle: new_bundle@,
                possession_sig: possession_sig@,
                recovery_sig: recovery_sig@,
            },
            DirRequest::Witness { device, generation, signature } => DirRequestV::Witness {
                device: device@,
                generation: *generation,
                signature: signature@,
            },
        }
    }
}

/// The blocks a request carries after its address (and, for a deposit, after
/// its bundle count; for a witness, after its generation), in wire order.
pub open spec fn request_blocks(r: DirRequestV) -> Seq<Seq<u8>> {
    match r {
        DirRequestV::Register { identity, bundle, signature, .. } => seq![identity, bundle, signature],
        DirRequestV::Lookup { .. } => Seq::empty(),
        DirRequestV::DepositPrekeys { bundles, signature, .. } => bundles.push(signature),
        DirRequestV::Rotate { new_identity, new_bundle, possession_sig, rotation_sig, .. } => seq![
            new_identity,
            new_bundle,
            possession_sig,
            rotation_sig,
        ],
        DirRequestV::SetRecovery { recovery, signature, .. } => seq![recovery, signature],
        DirRequestV::Recover { new_identity, new_bundle, possession_sig, recovery_sig, .. } => seq![
            new_identity,
            new_bundle,
            possession_sig,
            recovery_sig,
        ],
        DirRequestV::Witness { signature, .. } => seq![signature],
    }
}

pub open spec fn request_device(r: DirRequestV) -> AddrV {
    match r {
        DirRequestV::Register { device, .. } => device,
        DirRequestV::Lookup { device } => device,
        DirRequestV::DepositPrekeys { device, .. } => device,
        DirRequestV::Rotate { device, .. } => device,
        DirRequestV::SetRecovery { device, .. } => device,
        DirRequestV::Recover { device, .. } => device,
        DirRequestV::Witness { device, .. } => device,
    }
}

/// A request can be written: its address and every block fit their `u32`
/// lengths, and a deposit's bundle count fits a `u32`.
pub open spec fn request_ok(r: DirRequestV) -> bool {
    &&& addr_ok(request_device(r))
    &&& blocks_ok(request_blocks(r))
    &&& match r {
        DirRequestV::DepositPrekeys { identity, bundles, .. } => identity.len() <= u32::MAX
            && bundles.len() <= u32::MAX,
        _ => true,
    }
}

/// A request's one-byte tag: 1 Register, 2 Lookup, 3 Rotate, 4 SetRecovery,
/// 5 Recover, 6 DepositPrekeys, 7 Witness.
pub open spec fn request_tag(r: DirRequestV) -> u8 {
    match r {
        DirRequestV::Register { .. } => 1,
        DirRequestV::Lookup { .. } => 2,
        DirRequestV::Rotate { .. } => 3,
        DirRequestV::SetRecovery { .. } => 4,
        DirRequestV::Recover { .. } => 5,
        DirRequestV::DepositPrekeys { .. } => 6,
        DirRequestV::Witness { .. } => 7,
    }
}

/// What follows the address on the wire.
pub open spec fn request_fields(r: DirRequestV) -> Seq<u8> {
    match r {
        DirRequestV::DepositPrekeys { identity, bundles, .. } => lp(identity) + (be32(bundles.len() as u32)
            + lps(request_blocks(r))),
        DirRequestV::Witness { generation, .. } => be64(generation) + lps(request_blocks(r)),
        _ => lps(request_blocks(r)),
    }
}

/// The wire form of a request: its tag, its address, its fields.
pub open spec fn request_bytes(r: DirRequestV) -> Seq<u8> {
    seq![request_tag(r)] + (addr_bytes(request_device(r)) + request_fields(r))
}

/// Reading `n` blocks that end the input exactly.
pub open spec fn take_last_blocks(n: nat, s: Seq<u8>) -> Option<Seq<Seq<u8>>> {
    match take_lps_spec(n, s) {
        Some((bs, r)) => if r.len() == 0 {
            Some(bs)
        } else {
            None
        },
        None => None,
    }
}

/// Reading the fields of a request that carries only blocks (tags 1 to 5).
pub open spec fn decode_blocks_fields(tag: u8, device: AddrV, r: Seq<u8>) -> Option<DirRequestV> {
    let n: nat = if tag == 1 { 3 } else if tag == 2 { 0 } else if tag == 4 { 2 } else { 4 };
    match take_last_blocks(n, r) {
        Some(bs) => if tag == 1 {
            Some(DirRequestV::Register { device, identity: bs[0], bundle: bs[1], signature: bs[2] })
        } else if tag == 2 {
            Some(DirRequestV::Lookup { device })
        } else if tag == 3 {
            Some(
                DirRequestV::Rotate {
                    device,
                    new_identity: bs[0],
                    new_bundle: bs[1],
                    possession_sig: bs[2],
                    rotation_sig: bs[3],
                },
            )
        } else if tag == 4 {
            Some(DirRequestV::SetRecovery { device, recovery: bs[0], signature: bs[1] })
        } else {
            Some(
                DirRequestV::Recover {
                    device,
                    new_identity: bs[0],
                    new_bundle: bs[1],
                    possession_sig: bs[2],
                    recovery_sig: bs[3],
                },
            )
        },
        None => None,
    }
}

/// Reading a deposit's fields: the identity, the bundle count, the bundles,
/// the signature.
pub open spec fn decode_deposit_fields(device: AddrV, r: Seq<u8>) -> Option<DirRequestV> {
    match take_bytes_spec(r) {
        Some((identity, r2)) => match take_u32_spec(r2) {
            Some((count, r3)) => match take_last_blocks(count as nat + 1, r3) {
                Some(bs) => Some(
                    DirRequestV::DepositPrekeys { device, identity, bundles: bs.drop_last(), signature: bs.last() },
                ),
                None => None,
            },
            None => None,
        },
        None => None,
    }
}

/// Reading a witness's fields: the generation, then the signature.
pub open spec fn decode_witness_fields(device: AddrV, r: Seq<u8>) -> Option<DirRequestV> {
    match take_u64_spec(r) {
        Some((generation, r2)) => match take_last_blocks(1, r2) {
            Some(bs) => Some(DirRequestV::Witness { device, generation, signature: bs[0] }),
            None => None,
        },
        None => None,
    }
}

/// Reading the fields a tag selects, after the address; nothing may follow.
pub open spec fn decode_fields_spec(tag: u8, device: AddrV, r: Seq<u8>) -> Option<DirRequestV> {
    if 1 <= tag <= 5 {
        decode_blocks_fields(tag, device, r)
    } else if tag == 6 {
        decode_deposit_fields(device, r)
    } else if tag == 7 {
        decode_witness_fields(device, r)
    } else {
        None
    }
}

/// Reading a request: the tag, the address, then the fields the tag selects.
pub open spec fn decode_request_spec(s: Seq<u8>) -> Option<DirRequestV> {
    if s.len() == 0 {
        None
    } else {
        match take_addr_spec(s.drop_first()) {
            None => None,
            Some((device, r)) => decode_fields_spec(s[0], device, r),
        }
    }
}

proof fn lemma_take_last_blocks_of(bs: Seq<Seq<u8>>)
    requires
        blocks_ok(bs),
    ensures
        take_last_blocks(bs.len(), lps(bs)) == Some(bs),
{
    lemma_take_lps_of(bs, Seq::empty());
    assert(lps(bs) + Seq::<u8>::empty() =~= lps(bs));
}

proof fn lemma_take_last_blocks_inv(n: nat, s: Seq<u8>)
    requires
        take_last_blocks(n, s) is Some,
    ensures
        s == lps(take_last_blocks(n, s).unwrap()),
        take_last_blocks(n, s).unwrap().len() == n,
        blocks_ok(take_last_blocks(n, s).unwrap()),
{
    lemma_take_lps_inv(n, s);
    let (bs, r) = take_lps_spec(n, s).unwrap();
    assert(s =~= lps(bs));
}

proof fn lemma_fields_roundtrip(r: DirRequestV)
    requires
        request_ok(r),
    ensures
        decode_fields_spec(request_tag(r), request_device(r), request_fields(r)) == Some(r),
{
    let bs = request_blocks(r);
    lemma_take_last_blocks_of(bs);
    match r {
        DirRequestV::DepositPrekeys { device, identity, bundles, signature } => {
            lemma_take_bytes_of(identity, be32(bundles.len() as u32) + lps(bs));
            lemma_take_u32_of(bundles.len() as u32, lps(bs));
            assert(bs.drop_last() =~= bundles);
            assert(decode_deposit_fields(device, request_fields(r)) == Some(r));
        },
        DirRequestV::Witness { device, generation, signature } => {
            lemma_take_u64_of(generation, lps(bs));
            assert(decode_witness_fields(device, request_fields(r)) == Some(r));
        },
        _ => {
            assert(decode_blocks_fields(request_tag(r), request_device(r), request_fields(r)) == Some(r));
        },
    }
}

/// What the fields decoder accepts is the encoding of what it returns.
pub open spec fn fields_canonical(tag: u8, device: AddrV, rest: Seq<u8>) -> bool {
    let r = decode_fields_spec(tag, device, rest).unwrap();
    &&& request_tag(r) == tag
    &&& request_device(r) == device
    &&& request_fields(r) == rest
    &&& blocks_ok(request_blocks(r))
    &&& r matches DirRequestV::DepositPrekeys { identity, bundles, .. } ==> identity.len() <= u32::MAX
        && bundles.len() <= u32::MAX
}

proof fn lemma_deposit_canonical(device: AddrV, rest: Seq<u8>)
    requires
        decode_deposit_fields(device, rest) is Some,
    ensures
        fields_canonical(6, device, rest),
{
    let r = decode_deposit_fields(device, rest).unwrap();
    lemma_take_bytes_inv(rest);
    let (identity, r2) = take_bytes_spec(rest).unwrap();
    lemma_take_u32_inv(r2);
    let (count, r3) = take_u32_spec(r2).unwrap();
    lemma_take_last_blocks_inv(count as nat + 1, r3);
    let bs = take_last_blocks(count as nat + 1, r3).unwrap();
    assert(bs =~= bs.drop_last().push(bs.last()));
    assert(request_blocks(r) == bs);
}

proof fn lemma_witness_canonical(device: AddrV, rest: Seq<u8>)
    requires
        decode_witness_fields(device, rest) is Some,
    ensures
        fields_canonical(7, device, rest),
{
    lemma_take_u64_inv(rest);
    let (generation, r2) = take_u64_spec(rest).unwrap();
    lemma_take_last_blocks_inv(1, r2);
    let bs = take_last_blocks(1, r2).unwrap();
    assert(bs =~= seq![bs[0]]);
}

proof fn lemma_register_canonical(device: AddrV, rest: Seq<u8>)
    requires
        decode_blocks_fields(1, device, rest) is Some,
    ensures
        fields_canonical(1, device, rest),
{
    lemma_take_last_blocks_inv(3, rest);
    let bs = take_last_blocks(3, rest).unwrap();
    let r = DirRequestV::Register { device, identity: bs[0], bundle: bs[1], signature: bs[2] };
    assert(decode_fields_spec(1, device, rest) == Some(r));
    assert(request_blocks(r) =~= bs);
}

proof fn lemma_lookup_canonical(device: AddrV, rest: Seq<u8>)
    requires
        decode_blocks_fields(2, device, rest) is Some,
    ensures
        fields_canonical(2, device, rest),
{
    lemma_take_last_blocks_inv(0, rest);
    let bs = take_last_blocks(0, rest).unwrap();
    let r = DirRequestV::Lookup { device };
    assert(decode_fields_spec(2, device, rest) == Some(r));
    assert(request_blocks(r) =~= bs);
}

proof fn lemma_rotate_canonical(device: AddrV, rest: Seq<u8>)
    requires
        decode_blocks_fields(3, device, rest) is Some,
    ensures
        fields_canonical(3, device, rest),
{
    lemma_take_last_blocks_inv(4, rest);
    let bs = take_last_blocks(4, rest).unwrap();
    let r = DirRequestV::Rotate {
        device,
        new_identity: bs[0],
        new_bundle: bs[1],
        possession_sig: bs[2],
        rotation_sig: bs[3],
    };
    assert(decode_fields_spec(3, device, rest) == Some(r));
    assert(request_blocks(r) =~= bs);
}

proof fn lemma_set_recovery_canonical(device: AddrV, rest: Seq<u8>)
    requires
        decode_blocks_fields(4, device, rest) is Some,
    ensures
        fields_canonical(4, device, rest),
{
    lemma_take_last_blocks_inv(2, rest);
    let bs = take_last_blocks(2, rest).unwrap();
    let r = DirRequestV::SetRecovery { device, recovery: bs[0], signature: bs[1] };
    assert(decode_fields_spec(4, device, rest) == Some(r));
    assert(request_blocks(r) =~= bs);
}

proof fn lemma_recover_canonical(device: AddrV, rest: Seq<u8>)
    requires
        decode_blocks_fields(5, device, rest) is Some,
    ensures
        fields_canonical(5, device, rest),
{
    lemma_take_last_blocks_inv(4, rest);
    let bs = take_last_blocks(4, rest).unwrap();
    let r = DirRequestV::Recover {
        device,
        new_identity: bs[0],
        new_bundle: bs[1],
        possession_sig: bs[2],
        recovery_sig: bs[3],
    };
    assert(decode_fields_spec(5, device, rest) == Some(r));
    assert(request_blocks(r) =~= bs);
}

proof fn lemma_plain_canonical(tag: u8, device: AddrV, rest: Seq<u8>)
    requires
        1 <= tag <= 5,
        decode_blocks_fields(tag, device, rest) is Some,
    ensures
        fields_canonical(tag, device, rest),
{
    if tag == 1 {
        lemma_register_canonical(device, rest);
    } else if tag == 2 {
        lemma_lookup_canonical(device, rest);
    } else if tag == 3 {
        lemma_rotate_canonical(device, rest);
    } else if tag == 4 {
        lemma_set_recovery_canonical(device, rest);
    } else {
        lemma_recover_canonical(device, rest);
    }
}

proof fn lemma_fields_canonical(tag: u8, device: AddrV, rest: Seq<u8>)
    requires
        decode_fields_spec(tag, device, rest) is Some,
    ensures
        fields_canonical(tag, device, rest),
{
    if tag == 6 {
        lemma_deposit_canonical(device, rest);
    } else if tag == 7 {
        lemma_witness_canonical(device, rest);
    } else {
        lemma_plain_canonical(tag, device, rest);
    }
}

/// Decoding the encoding of a request gives it back.
pub proof fn lemma_request_roundtrip(r: DirRequestV)
    requires
        request_ok(r),
    ensures
        decode_request_spec(request_bytes(r)) == Some(r),
{
    let s = request_bytes(r);
    assert(s.drop_first() =~= addr_bytes(request_device(r)) + request_fields(r));
    lemma_take_addr_of(request_device(r), request_fields(r));
    lemma_fields_roundtrip(r);
}

/// Whatever decodes as a request is that request's encoding.
pub proof fn lemma_request_canonical(s: Seq<u8>)
    requires
        decode_request_spec(s) is Some,
    ensures
        request_ok(decode_request_spec(s).unwrap()),
        s == request_bytes(decode_request_spec(s).unwrap()),
{
    lemma_take_addr_inv(s.drop_first());
    let (device, rest) = take_addr_spec(s.drop_first()).unwrap();
    lemma_fields_canonical(s[0], device, rest);
    assert(s =~= seq![s[0]] + s.drop_first());
}

} // verus!

verus! {

/// Append one more block behind those already written, keeping track of the
/// blocks written so far.
fn put_block(out: &mut Vec<u8>, block: &[u8], Ghost(prefix): Ghost<Seq<u8>>, Ghost(done): Ghost<Seq<Seq<u8>>>)
    requires
        block@.len() <= u32::MAX,
        old(out)@ == prefix + lps(done),
    ensures
        final(out)@ == prefix + lps(done.push(block@)),
{
    put_bytes(out, block);
    proof {
        lemma_lps_push(done, block@);
        assert(prefix + lps(done.push(block@)) =~= prefix + lps(done) + lp(block@));
    }
}

/// Encode a request. A block longer than a `u32` length can say is out of
/// range, and so is a deposit of more bundles than a `u32` can count.
pub fn encode_dir_request(request: &DirRequest) -> (out: Vec<u8>)
    requires
        request_ok(request@),
    ensures
        out@ == request_bytes(request@),
{
    let mut out: Vec<u8> = Vec::new();
    let ghost r = request@;
    proof {
        lemma_lps_unfold(Seq::<Seq<u8>>::empty());
    }
    match request {
        DirRequest::Register { device, identity, bundle, signature } => {
            out.push(1);
            put_addr(&mut out, device);
            let ghost p = out@;
            assert(out@ == p + lps(Seq::empty()));
            put_block(&mut out, identity.as_slice(), Ghost(p), Ghost(Seq::empty()));
            let ghost d1 = Seq::<Seq<u8>>::empty().push(identity@);
            put_block(&mut out, bundle.as_slice(), Ghost(p), Ghost(d1));
            let ghost d2 = Seq::<Seq<u8>>::empty().push(identity@).push(bundle@);
            put_block(&mut out, signature.as_slice(), Ghost(p), Ghost(d2));
            assert(d2.push(signature@) =~= request_blocks(r));
            assert(out@ =~= request_bytes(r));
        },
        DirRequest::Lookup { device } => {
            out.push(2);
            put_addr(&mut out, device);
            assert(out@ =~= request_bytes(r));
        },
        DirRequest::Rotate { device, new_identity, new_bundle, possession_sig, rotation_sig } => {
            out.push(3);
            put_addr(&mut out, device);
            let ghost p = out@;
            assert(out@ == p + lps(Seq::empty()));
            put_block(&mut out, new_identity.as_slice(), Ghost(p), Ghost(Seq::empty()));
            let ghost d3 = Seq::<Seq<u8>>::empty().push(new_identity@);
            put_block(&mut out, new_bundle.as_slice(), Ghost(p), Ghost(d3));
            let ghost d4 = Seq::<Seq<u8>>::empty().push(new_identity@).push(new_bundle@);
            put_block(&mut out, possession_sig.as_slice(), Ghost(p), Ghost(d4));
            let ghost d8 = Seq::<Seq<u8>>::empty().push(new_identity@).push(new_bundle@).push(possession_sig@);
            put_block(&mut out, rotation_sig.as_slice(), Ghost(p), Ghost(d8));
            assert(d8.push(rotation_sig@) =~= request_blocks(r));
            assert(out@ =~= request_bytes(r));
        },
        DirRequest::SetRecovery { device, recovery, signature } => {
            out.push(4);
            put_addr(&mut out, device);
            let ghost p = out@;
            assert(out@ == p + lps(Seq::empty()));
            put_block(&mut out, recovery.as_slice(), Ghost(p), Ghost(Seq::empty()));
            let ghost d5 = Seq::<Seq<u8>>::empty().push(recovery@);
            put_block(&mut out, signature.as_slice(), Ghost(p), Ghost(d5));
            assert(d5.push(signature@) =~= request_blocks(r));
            assert(out@ =~= request_bytes(r));
        },
        DirRequest::Recover { device, new_identity, new_bundle, possession_sig, recovery_sig } => {
            out.push(5);
            put_addr(&mut out, device);
            let ghost p = out@;
            assert(out@ == p + lps(Seq::empty()));
            put_block(&mut out, new_identity.as_slice(), Ghost(p), Ghost(Seq::empty()));
            let ghost d6 = Seq::<Seq<u8>>::empty().push(new_identity@);
            put_block(&mut out, new_bundle.as_slice(), Ghost(p), Ghost(d6));
            let ghost d7 = Seq::<Seq<u8>>::empty().push(new_identity@).push(new_bundle@);
            put_block(&mut out, possession_sig.as_slice(), Ghost(p), Ghost(d7));
            let ghost d9 = Seq::<Seq<u8>>::empty().push(new_identity@).push(new_bundle@).push(possession_sig@);
            put_block(&mut out, recovery_sig.as_slice(), Ghost(p), Ghost(d9));
            assert(d9.push(recovery_sig@) =~= request_blocks(r));
            assert(out@ =~= request_bytes(r));
        },
        DirRequest::DepositPrekeys { device, identity, bundles, signature } => {
            out.push(6);
            put_addr(&mut out, device);
            put_bytes(&mut out, identity.as_slice());
            put_u32(&mut out, bundles.len() as u32);
            let ghost p = out@;
            let ghost all = blocks_view(bundles@);
            assert(all.take(0) =~= Seq::<Seq<u8>>::empty());
            assert(out@ == p + lps(all.take(0)));
            let mut i: usize = 0;
            while i < bundles.len()
                invariant
                    0 <= i <= bundles@.len(),
                    all == blocks_view(bundles@),
                    blocks_ok(all.push(signature@)),
                    out@ == p + lps(all.take(i as int)),
                decreases bundles@.len() - i,
            {
                assert(all.push(signature@)[i as int] == bundles@[i as int]@);
                put_block(&mut out, bundles[i].as_slice(), Ghost(p), Ghost(all.take(i as int)));
                assert(all.take(i as int).push(bundles@[i as int]@) =~= all.take(i + 1));
                i = i + 1;
            }
            assert(all.take(i as int) =~= all);
            assert(all.push(signature@)[all.len() as int] == signature@);
            put_block(&mut out, signature.as_slice(), Ghost(p), Ghost(all));
            assert(out@ =~= request_bytes(r));
        },
        DirRequest::Witness { device, generation, signature } => {
            out.push(7);
            put_addr(&mut out, device);
            put_u64(&mut out, *generation);
            let ghost p = out@;
            assert(out@ == p + lps(Seq::empty()));
            assert(request_blocks(r)[0] == signature@);
            put_block(&mut out, signature.as_slice(), Ghost(p), Ghost(Seq::empty()));
            assert(Seq::<Seq<u8>>::empty().push(signature@) =~= request_blocks(r));
            assert(out@ =~= request_bytes(r));
        },
    }
    out
}

} // verus!

verus! {

/// Take the first block out of a list of blocks.
fn take_first(v: &mut Vec<Vec<u8>>) -> (b: Vec<u8>)
    requires
        old(v)@.len() > 0,
    ensures
        b@ == blocks_view(old(v)@)[0],
        final(v)@.len() == old(v)@.len() - 1,
        blocks_view(final(v)@) == blocks_view(old(v)@).drop_first(),
{
    let b = v.remove(0);
    assert(blocks_view(v@) =~= blocks_view(old(v)@).drop_first());
    b
}

/// Read exactly `n` blocks that end the input; `None` if they do not.
fn take_exact_blocks(n: u64, bytes: &[u8]) -> (r: Option<Vec<Vec<u8>>>)
    ensures
        match r {
            Some(v) => take_last_blocks(n as nat, bytes@) == Some(blocks_view(v@)),
            None => take_last_blocks(n as nat, bytes@) is None,
        },
{
    let (v, rest) = take_blocks(n, bytes)?;
    if rest.len() == 0 {
        Some(v)
    } else {
        None
    }
}

fn decode_fields(tag: u8, device: DeviceAddr, rest: &[u8]) -> (r: Option<DirRequest>)
    ensures
        match r {
            Some(q) => decode_fields_spec(tag, device@, rest@) == Some(q@),
            None => decode_fields_spec(tag, device@, rest@) is None,
        },
{
    let ghost d = device@;
    if tag == 1 {
        let mut v = take_exact_blocks(3, rest)?;
        proof { lemma_take_last_blocks_inv(3, rest@); }
        let identity = take_first(&mut v);
        let bundle = take_first(&mut v);
        let signature = take_first(&mut v);
        Some(DirRequest::Register { device, identity, bundle, signature })
    } else if tag == 2 {
        let v = take_exact_blocks(0, rest)?;
        Some(DirRequest::Lookup { device })
    } else if tag == 3 {
        let mut v = take_exact_blocks(4, rest)?;
        proof { lemma_take_last_blocks_inv(4, rest@); }
        let new_identity = take_first(&mut v);
        let new_bundle = take_first(&mut v);
        let possession_sig = take_first(&mut v);
        let rotation_sig = take_first(&mut v);
        Some(DirRequest::Rotate { device, new_identity, new_bundle, possession_sig, rotation_sig })
    } else if tag == 4 {
        let mut v = take_exact_blocks(2, rest)?;
        proof { lemma_take_last_blocks_inv(2, rest@); }
        let recovery = take_first(&mut v);
        let signature = take_first(&mut v);
        Some(DirRequest::SetRecovery { device, recovery, signature })
    } else if tag == 5 {
        let mut v = take_exact_blocks(4, rest)?;
        proof { lemma_take_last_blocks_inv(4, rest@); }
        let new_identity = take_first(&mut v);
        let new_bundle = take_first(&mut v);
        let possession_sig = take_first(&mut v);
        let recovery_sig = take_first(&mut v);
        Some(DirRequest::Recover { device, new_identity, new_bundle, possession_sig, recovery_sig })
    } else if tag == 6 {
        let (identity, rest) = take_bytes(rest)?;
        let (count, rest) = take_u32(rest)?;
        let mut bundles = take_exact_blocks(count as u64 + 1, rest)?;
        proof { lemma_take_last_blocks_inv(count as nat + 1, rest@); }
        let ghost all = blocks_view(bundles@);
        let signature = bundles.pop().unwrap();
        assert(blocks_view(bundles@) =~= all.drop_last());
        Some(DirRequest::DepositPrekeys { device, identity: to_vec(identity), bundles, signature })
    } else if tag == 7 {
        let (generation, rest) = take_u64(rest)?;
        let mut v = take_exact_blocks(1, rest)?;
        proof { lemma_take_last_blocks_inv(1, rest@); }
        let signature = take_first(&mut v);
        Some(DirRequest::Witness { device, generation, signature })
    } else {
        None
    }
}

fn decode_dir_request_inner(bytes: &[u8]) -> (r: Option<DirRequest>)
    ensures
        match r {
            Some(q) => decode_request_spec(bytes@) == Some(q@),
            None => decode_request_spec(bytes@) is None,
        },
{
    if bytes.len() == 0 {
        return None;
    }
    let tag = bytes[0];
    let rest = &bytes[1..bytes.len()];
    assert(rest@ =~= bytes@.drop_first());
    let (device, rest) = take_addr(rest)?;
    decode_fields(tag, device, rest)
}

/// Decode a request; `None` on any malformation. Exactly the encodings of
/// requests decode, each to the request it encodes.
pub fn decode_dir_request(bytes: &[u8]) -> (r: Option<DirRequest>)
    ensures
        match r {
            Some(q) => request_ok(q@) && bytes@ == request_bytes(q@),
            None => forall|q: DirRequestV| request_ok(q) ==> bytes@ != #[trigger] request_bytes(q),
        },
{
    let r = decode_dir_request_inner(bytes);
    proof {
        if decode_request_spec(bytes@) is Some {
            lemma_request_canonical(bytes@);
        } else {
            assert forall|q: DirRequestV| request_ok(q) implies bytes@ != #[trigger] request_bytes(q) by {
                lemma_request_roundtrip(q);
            }
        }
    }
    r
}

/// A request survives the wire: decoding its encoding gives it back.
pub proof fn law_requests_round_trip(q: DirRequestV)
    requires
        request_ok(q),
    ensures
        decode_request_spec(request_bytes(q)) == Some(q),
{
    lemma_request_roundtrip(q);
}

/// The request encoding is injective: two requests with the same bytes are
/// the same request.
pub proof fn law_request_encoding_is_injective(q1: DirRequestV, q2: DirRequestV)
    requires
        request_ok(q1),
        request_ok(q2),
        request_bytes(q1) == request_bytes(q2),
    ensures
        q1 == q2,
{
    lemma_request_roundtrip(q1);
    lemma_request_roundtrip(q2);
}

} // verus!

verus! {

/// The directory's response.
#[derive(Clone, Debug, PartialEq, Eq)]
pub enum DirResponse {
    /// A registration for a previously unregistered address succeeded.
    Registered,
    /// A registration under the address's existing identity refreshed its bundle.
    Refreshed,
    /// A registration was refused: the address is bound to a different identity.
    Rejected,
    /// A registration was refused: the signature did not prove possession.
    PossessionFailed,
    /// The looked-up device's published material.
    Found { identity: Vec<u8>, bundle: Vec<u8> },
    /// The pool was stocked; the value is its new depth.
    Deposited(u32),
    /// The presented identity is not the one bound to this address.
    DepositRejected,
    /// The looked-up device is not registered.
    NotFound,
    /// A rotation succeeded; the binding now holds the new key.
    Rotated,
    /// A rotation was refused: not authorized by the currently bound key.
    Unauthorized,
    /// The address is not registered.
    Unregistered,
    /// A recovery key was attached to the address.
    RecoverySet,
    /// A recover was refused: the address has no recovery key set.
    NoRecovery,
    /// A registration was refused: the handle is reserved for account provisioning.
    ReservedHandle,
    /// A witnessed generation is at or ahead of the highest seen.
    Fresh,
    /// A witnessed generation is below the highest seen: a rollback.
    RolledBack,
    /// A new handle registration was refused: this source registers too often.
    RateLimited,
    /// A new raw-handle registration was refused: self-registration is closed.
    RegistrationClosed,
}

/// A response as a value: its tag, and the fields of `Found` and `Deposited`.
pub enum DirResponseV {
    Found { identity: Seq<u8>, bundle: Seq<u8> },
    Deposited(u32),
    /// Every other response: its tag alone.
    Plain(u8),
}

impl View for DirResponse {
    type V = DirResponseV;

    open spec fn view(&self) -> DirResponseV {
        match self {
            DirResponse::Found { identity, bundle } => DirResponseV::Found {
                identity: identity@,
                bundle: bundle@,
            },
            DirResponse::Deposited(depth) => DirResponseV::Deposited(*depth),
            DirResponse::Registered => DirResponseV::Plain(1),
            DirResponse::Refreshed => DirResponseV::Plain(2),
            DirResponse::Rejected => DirResponseV::Plain(3),
            DirResponse::PossessionFailed => DirResponseV::Plain(4),
            DirResponse::NotFound => DirResponseV::Plain(6),
            DirResponse::Rotated => DirResponseV::Plain(7),
            DirResponse::Unauthorized => DirResponseV::Plain(8),
            DirResponse::Unregistered => DirResponseV::Plain(9),
            DirResponse::RecoverySet => DirResponseV::Plain(10),
            DirResponse::NoRecovery => DirResponseV::Plain(11),
            DirResponse::DepositRejected => DirResponseV::Plain(13),
            DirResponse::ReservedHandle => DirResponseV::Plain(14),
            DirResponse::Fresh => DirResponseV::Plain(15),
            DirResponse::RolledBack => DirResponseV::Plain(16),
            DirResponse::RateLimited => DirResponseV::Plain(17),
            DirResponse::RegistrationClosed => DirResponseV::Plain(18),
        }
    }
}

/// The tags of the responses that carry no fields.
pub open spec fn plain_tag(t: u8) -> bool {
    1 <= t <= 18 && t != 5 && t != 12
}

/// A response can be written: a plain response has a plain tag, and the
/// blocks of `Found` fit their `u32` lengths.
pub open spec fn response_ok(r: DirResponseV) -> bool {
    match r {
        DirResponseV::Found { identity, bundle } => identity.len() <= u32::MAX && bundle.len() <= u32::MAX,
        DirResponseV::Deposited(_) => true,
        DirResponseV::Plain(t) => plain_tag(t),
    }
}

/// The wire form of a response. Tags: 1 Registered, 2 Refreshed, 3 Rejected,
/// 4 PossessionFailed, 5 Found, 6 NotFound, 7 Rotated, 8 Unauthorized,
/// 9 Unregistered, 10 RecoverySet, 11 NoRecovery, 12 Deposited,
/// 13 DepositRejected, 14 ReservedHandle, 15 Fresh, 16 RolledBack,
/// 17 RateLimited, 18 RegistrationClosed.
pub open spec fn response_bytes(r: DirResponseV) -> Seq<u8> {
    match r {
        DirResponseV::Found { identity, bundle } => seq![5u8] + (lp(identity) + lp(bundle)),
        DirResponseV::Deposited(depth) => seq![12u8] + be32(depth),
        DirResponseV::Plain(t) => seq![t],
    }
}

/// Reading a response: the tag, then exactly its fields.
pub open spec fn decode_response_spec(s: Seq<u8>) -> Option<DirResponseV> {
    if s.len() == 0 {
        None
    } else {
        let tag = s[0];
        let rest = s.drop_first();
        if tag == 5 {
            match take_bytes_spec(rest) {
                Some((identity, r)) => match take_bytes_spec(r) {
                    Some((bundle, r2)) => if r2.len() == 0 {
                        Some(DirResponseV::Found { identity, bundle })
                    } else {
                        None
                    },
                    None => None,
                },
                None => None,
            }
        } else if tag == 12 {
            match take_u32_spec(rest) {
                Some((depth, r)) => if r.len() == 0 {
                    Some(DirResponseV::Deposited(depth))
                } else {
                    None
                },
                None => None,
            }
        } else if plain_tag(tag) && rest.len() == 0 {
            Some(DirResponseV::Plain(tag))
        } else {
            None
        }
    }
}

pub proof fn lemma_response_roundtrip(r: DirResponseV)
    requires
        response_ok(r),
    ensures
        decode_response_spec(response_bytes(r)) == Some(r),
{
    let s = response_bytes(r);
    match r {
        DirResponseV::Found { identity, bundle } => {
            assert(s.drop_first() =~= lp(identity) + (lp(bundle) + Seq::empty()));
            lemma_take_bytes_of(identity, lp(bundle) + Seq::empty());
            lemma_take_bytes_of(bundle, Seq::empty());
        },
        DirResponseV::Deposited(depth) => {
            assert(s.drop_first() =~= be32(depth) + Seq::empty());
            lemma_take_u32_of(depth, Seq::empty());
        },
        DirResponseV::Plain(t) => {
            assert(s.drop_first() =~= Seq::<u8>::empty());
        },
    }
}

pub proof fn lemma_response_canonical(s: Seq<u8>)
    requires
        decode_response_spec(s) is Some,
    ensures
        response_ok(decode_response_spec(s).unwrap()),
        s == response_bytes(decode_response_spec(s).unwrap()),
{
    let tag = s[0];
    let rest = s.drop_first();
    assert(s =~= seq![tag] + rest);
    if tag == 5 {
        lemma_take_bytes_inv(rest);
        let (identity, r) = take_bytes_spec(rest).unwrap();
        lemma_take_bytes_inv(r);
        let (bundle, r2) = take_bytes_spec(r).unwrap();
        assert(rest =~= lp(identity) + lp(bundle));
    } else if tag == 12 {
        lemma_take_u32_inv(rest);
        let (depth, r) = take_u32_spec(rest).unwrap();
        assert(rest =~= be32(depth));
    } else {
        assert(rest =~= Seq::<u8>::empty());
    }
}

/// Encode a response. A `Found` block longer than a `u32` length can say is
/// out of range.
pub fn encode_dir_response(response: &DirResponse) -> (out: Vec<u8>)
    requires
        response_ok(response@),
    ensures
        out@ == response_bytes(response@),
{
    let mut out: Vec<u8> = Vec::new();
    match response {
        DirResponse::Registered => out.push(1),
        DirResponse::Refreshed => out.push(2),
        DirResponse::Rejected => out.push(3),
        DirResponse::PossessionFailed => out.push(4),
        DirResponse::Found { identity, bundle } => {
            out.push(5);
            put_bytes(&mut out, identity.as_slice());
            put_bytes(&mut out, bundle.as_slice());
        },
        DirResponse::NotFound => out.push(6),
        DirResponse::Rotated => out.push(7),
        DirResponse::Unauthorized => out.push(8),
        DirResponse::Unregistered => out.push(9),
        DirResponse::RecoverySet => out.push(10),
        DirResponse::NoRecovery => out.push(11),
        DirResponse::Deposited(depth) => {
            out.push(12);
            put_u32(&mut out, *depth);
        },
        DirResponse::DepositRejected => out.push(13),
        DirResponse::ReservedHandle => out.push(14),
        DirResponse::Fresh => out.push(15),
        DirResponse::RolledBack => out.push(16),
        DirResponse::RateLimited => out.push(17),
        DirResponse::RegistrationClosed => out.push(18),
    }
    assert(out@ =~= response_bytes(response@));
    out
}

fn decode_dir_response_inner(bytes: &[u8]) -> (r: Option<DirResponse>)
    ensures
        match r {
            Some(q) => decode_response_spec(bytes@) == Some(q@),
            None => decode_response_spec(bytes@) is None,
        },
{
    if bytes.len() == 0 {
        return None;
    }
    let tag = bytes[0];
    let rest = &bytes[1..bytes.len()];
    assert(rest@ =~= bytes@.drop_first());
    if tag == 5 {
        let (identity, rest) = take_bytes(rest)?;
        let (bundle, rest) = take_bytes(rest)?;
        return if rest.len() == 0 {
            Some(DirResponse::Found { identity: to_vec(identity), bundle: to_vec(bundle) })
        } else {
            None
        };
    }
    if tag == 12 {
        let (depth, rest) = take_u32(rest)?;
        return if rest.len() == 0 {
            Some(DirResponse::Deposited(depth))
        } else {
            None
        };
    }
    if rest.len() != 0 {
        return None;
    }
    match tag {
        1 => Some(DirResponse::Registered),
        2 => Some(DirResponse::Refreshed),
        3 => Some(DirResponse::Rejected),
        4 => Some(DirResponse::PossessionFailed),
        6 => Some(DirResponse::NotFound),
        7 => Some(DirResponse::Rotated),
        8 => Some(DirResponse::Unauthorized),
        9 => Some(DirResponse::Unregistered),
        10 => Some(DirResponse::RecoverySet),
        11 => Some(DirResponse::NoRecovery),
        13 => Some(DirResponse::DepositRejected),
        14 => Some(DirResponse::ReservedHandle),
        15 => Some(DirResponse::Fresh),
        16 => Some(DirResponse::RolledBack),
        17 => Some(DirResponse::RateLimited),
        18 => Some(DirResponse::RegistrationClosed),
        _ => None,
    }
}

/// Decode a response; `None` on any malformation. Exactly the encodings of
/// responses decode, each to the response it encodes.
pub fn decode_dir_response(bytes: &[u8]) -> (r: Option<DirResponse>)
    ensures
        match r {
            Some(q) => response_ok(q@) && bytes@ == response_bytes(q@),
            None => forall|q: DirResponseV| response_ok(q) ==> bytes@ != #[trigger] response_bytes(q),
        },
{
    let r = decode_dir_response_inner(bytes);
    proof {
        if decode_response_spec(bytes@) is Some {
            lemma_response_canonical(bytes@);
        } else {
            assert forall|q: DirResponseV| response_ok(q) implies bytes@ != #[trigger] response_bytes(q) by {
                lemma_response_roundtrip(q);
            }
        }
    }
    r
}

/// A response survives the wire: decoding its encoding gives it back.
pub proof fn law_responses_round_trip(q: DirResponseV)
    requires
        response_ok(q),
    ensures
        decode_response_spec(response_bytes(q)) == Some(q),
{
    lemma_response_roundtrip(q);
}

} // verus!
