use vstd::prelude::*;

verus! {

/// The four bytes, most significant first, that open every sealed message and
/// name the epoch whose secret sealed it.
pub open spec fn epoch_header(e: u32) -> Seq<u8> {
    seq![(e >> 24u32) as u8, (e >> 16u32) as u8, (e >> 8u32) as u8, e as u8]
}

/// Each byte of `m` combined with the secret byte at the same position, the
/// secret repeated as often as needed.
pub open spec fn keystream_xor(m: Seq<u8>, k: Seq<u8>) -> Seq<u8>
    recommends
        k.len() > 0,
{
    Seq::new(m.len(), |i: int| m[i] ^ k[i % (k.len() as int)])
}

/// What sealing `m` under secret `k` at epoch `e` produces.
pub open spec fn sealed(m: Seq<u8>, k: Seq<u8>, e: u32) -> Seq<u8> {
    epoch_header(e) + keystream_xor(m, k)
}

/// Whether `c` carries the header of epoch `e`.
pub open spec fn bound_to_epoch(c: Seq<u8>, e: u32) -> bool {
    c.len() >= 4 && c.subrange(0, 4) == epoch_header(e)
}

/// What opening `c` under secret `k` yields, when `c` carries an epoch header.
pub open spec fn opened(c: Seq<u8>, k: Seq<u8>) -> Seq<u8> {
    keystream_xor(c.subrange(4, c.len() as int), k)
}

/// The codec's failure: the message was not sealed at the epoch it is opened at.
#[derive(Debug, Clone, Copy, PartialEq, Eq, Structural)]
pub enum CodecError {
    EpochMismatch,
}

/// The header of epoch `e`.
pub fn header_bytes(e: u32) -> (r: Vec<u8>)
    ensures
        r@ == epoch_header(e),
{
    let r = vec![(e >> 24u32) as u8, (e >> 16u32) as u8, (e >> 8u32) as u8, e as u8];
    assert(r@ =~= epoch_header(e));
    r
}

fn xor_into(out: &mut Vec<u8>, m: &[u8], start: usize, k: &Vec<u8>)
    requires
        k@.len() > 0,
        start <= m@.len(),
    ensures
        final(out)@ == old(out)@ + keystream_xor(m@.subrange(start as int, m@.len() as int), k@),
{
    let ghost base = old(out)@;
    let ghost src = m@.subrange(start as int, m@.len() as int);
    let mut i: usize = start;
    while i < m.len()
        invariant
            start <= i <= m@.len(),
            k@.len() > 0,
            src == m@.subrange(start as int, m@.len() as int),
            out@.len() == base.len() + (i - start),
            out@.subrange(0, base.len() as int) == base,
            forall|j: int|
                0 <= j < i - start ==> #[trigger] out@[base.len() + j] == src[j] ^ k@[j % (k@.len() as int)],
        decreases m@.len() - i,
    {
        let j: usize = i - start;
        let b = m[i] ^ k[j % k.len()];
        out.push(b);
        assert(out@.subrange(0, base.len() as int) =~= base);
        i = i + 1;
    }
    let ghost ks = keystream_xor(src, k@);
    assert forall|j: int| 0 <= j < out@.len() implies #[trigger] out@[j] == (base + ks)[j] by {
        if j < base.len() {
            assert(out@[j] == out@.subrange(0, base.len() as int)[j]);
        } else {
            let t = j - base.len();
            assert(out@[base.len() + t] == src[t] ^ k@[t % (k@.len() as int)]);
        }
    }
    assert(out@ =~= base + ks);
}

/// Seals `m` under the secret `k` of epoch `e`: the epoch's header, then the
/// message combined with the secret's keystream.
pub fn seal(m: &[u8], k: &Vec<u8>, e: u32) -> (r: Vec<u8>)
    requires
        k@.len() > 0,
    ensures
        r@ == sealed(m@, k@, e),
{
    let mut r = header_bytes(e);
    xor_into(&mut r, m, 0, k);
    assert(m@.subrange(0, m@.len() as int) =~= m@);
    r
}

/// Opens `c` with the secret `k` of epoch `e`. It fails exactly when `c` was
/// not sealed at epoch `e`.
pub fn open(c: &[u8], k: &Vec<u8>, e: u32) -> (r: Result<Vec<u8>, CodecError>)
    requires
        k@.len() > 0,
    ensures
        bound_to_epoch(c@, e) ==> r is Ok && r->Ok_0@ == opened(c@, k@),
        !bound_to_epoch(c@, e) ==> r == Err::<Vec<u8>, CodecError>(CodecError::EpochMismatch),
{
    let h = header_bytes(e);
    if c.len() < 4 {
        return Err(CodecError::EpochMismatch);
    }
    if c[0] != h[0] || c[1] != h[1] || c[2] != h[2] || c[3] != h[3] {
        assert(c@.subrange(0, 4)[0] == c@[0]);
        return Err(CodecError::EpochMismatch);
    }
    assert(c@.subrange(0, 4) =~= epoch_header(e));
    let mut r: Vec<u8> = Vec::new();
    xor_into(&mut r, c, 4, k);
    assert(r@ =~= opened(c@, k@));
    Ok(r)
}

/// Whether `c` carries the header of epoch `e`.
pub fn is_bound_to_epoch(c: &Vec<u8>, e: u32) -> (r: bool)
    ensures
        r == bound_to_epoch(c@, e),
{
    let h = header_bytes(e);
    if c.len() < 4 {
        return false;
    }
    if c[0] != h[0] || c[1] != h[1] || c[2] != h[2] || c[3] != h[3] {
        assert(c@.subrange(0, 4)[0] == c@[0]);
        return false;
    }
    assert(c@.subrange(0, 4) =~= epoch_header(e));
    true
}

/// Opening what was sealed under a secret at an epoch, with the same secret at
/// the same epoch, gives back the message.
pub proof fn lemma_round_trip(m: Seq<u8>, k: Seq<u8>, e: u32)
    requires
        k.len() > 0,
    ensures
        bound_to_epoch(sealed(m, k, e), e),
        opened(sealed(m, k, e), k) == m,
{
    let c = sealed(m, k, e);
    assert(c.subrange(0, 4) =~= epoch_header(e));
    let body = c.subrange(4, c.len() as int);
    assert(body =~= keystream_xor(m, k));
    assert forall|i: int| 0 <= i < m.len() implies #[trigger] opened(c, k)[i] == m[i] by {
        let a = m[i];
        let b = k[i % (k.len() as int)];
        assert((a ^ b) ^ b == a) by (bit_vector);
    }
    assert(opened(c, k) =~= m);
}

/// A message sealed at one epoch is refused at any other.
pub proof fn lemma_epoch_bound(m: Seq<u8>, k: Seq<u8>, e: u32, other: u32)
    requires
        e != other,
    ensures
        !bound_to_epoch(sealed(m, k, e), other),
{
    let c = sealed(m, k, e);
    if bound_to_epoch(c, other) {
        assert(c.subrange(0, 4) =~= epoch_header(e));
        let h1 = epoch_header(e);
        let h2 = epoch_header(other);
        assert(h1[0] == h2[0] && h1[1] == h2[1] && h1[2] == h2[2] && h1[3] == h2[3]);
        assert(((e >> 24u32) as u8 == (other >> 24u32) as u8 && (e >> 16u32) as u8
            == (other >> 16u32) as u8 && (e >> 8u32) as u8 == (other >> 8u32) as u8 && e as u8
            == other as u8) ==> e == other) by (bit_vector);
    }
}

} // verus!
