use vstd::prelude::*;
use vstd::arithmetic::div_mod::lemma_mod_breakdown;

verus! {

/// Why a buffer does not yield a WebSocket payload.
#[derive(Debug, Clone, Copy, PartialEq, Eq, Structural)]
pub enum FrameError {
    /// More bytes are needed; the buffer is kept.
    Incomplete,
    /// The FIN bit is clear: multi-frame messages are not handled.
    Fragmented,
    /// The 64-bit length has its most significant bit set.
    TooLong,
}

/// First byte of every outgoing frame: FIN set, text opcode.
pub const TEXT_FRAME_HEAD: u8 = 0x81;

/// Largest length written in the 7-bit field itself.
pub const SHORT_LEN_MAX: u8 = 125;

pub const LEN16_MARK: u8 = 126;

pub const LEN64_MARK: u8 = 127;

pub const LEN16_MAX: usize = 65535;

/// Lengths from here on are refused by the decoder.
pub const LEN64_LIMIT: u64 = 0x8000_0000_0000_0000;

pub open spec fn pow256(k: nat) -> nat
    decreases k,
{
    if k == 0 {
        1
    } else {
        256 * pow256((k - 1) as nat)
    }
}

/// The number that bytes `s` spell in big-endian order.
pub open spec fn be_value(s: Seq<u8>) -> nat
    decreases s.len(),
{
    if s.len() == 0 {
        0
    } else {
        (be_value(s.drop_last()) * 256 + s.last()) as nat
    }
}

/// The last `k` big-endian bytes of `n`.
pub open spec fn be_bytes(n: nat, k: nat) -> Seq<u8>
    decreases k,
{
    if k == 0 {
        Seq::empty()
    } else {
        be_bytes(n / 256, (k - 1) as nat).push((n % 256) as u8)
    }
}

/// The length field of an unmasked frame header.
pub open spec fn length_field(n: nat) -> Seq<u8> {
    if n <= SHORT_LEN_MAX {
        seq![n as u8]
    } else if n <= LEN16_MAX {
        seq![LEN16_MARK] + be_bytes(n, 2)
    } else {
        seq![LEN64_MARK] + be_bytes(n, 8)
    }
}

/// A final, unmasked text frame carrying `p`.
pub open spec fn encode_frame(p: Seq<u8>) -> Seq<u8> {
    seq![TEXT_FRAME_HEAD] + length_field(p.len()) + p
}

pub open spec fn xor_mask(p: Seq<u8>, key: Seq<u8>) -> Seq<u8> {
    Seq::new(p.len(), |i: int| p[i] ^ key[i % 4])
}

/// A final text frame carrying `p` masked with `key`, as a client sends it.
pub open spec fn encode_masked_frame(p: Seq<u8>, key: Seq<u8>) -> Seq<u8> {
    let lf = length_field(p.len());
    seq![TEXT_FRAME_HEAD] + seq![(lf[0] + 128) as u8] + lf.drop_first() + key + xor_mask(p, key)
}

pub open spec fn short_len(d: Seq<u8>) -> nat {
    (d[1] % 128) as nat
}

pub open spec fn is_masked(d: Seq<u8>) -> bool {
    d[1] >= 128
}

/// Bytes of extended length after the first two header bytes.
pub open spec fn ext_len(d: Seq<u8>) -> nat {
    if short_len(d) == LEN16_MARK {
        2
    } else if short_len(d) == LEN64_MARK {
        8
    } else {
        0
    }
}

pub open spec fn declared_len(d: Seq<u8>) -> nat {
    if short_len(d) == LEN16_MARK {
        be_value(d.subrange(2, 4))
    } else if short_len(d) == LEN64_MARK {
        be_value(d.subrange(2, 10))
    } else {
        short_len(d)
    }
}

pub open spec fn header_len(d: Seq<u8>) -> nat {
    2 + ext_len(d) + if is_masked(d) { 4nat } else { 0nat }
}

pub open spec fn mask_key(d: Seq<u8>) -> Seq<u8> {
    d.subrange(2 + ext_len(d) as int, 6 + ext_len(d) as int)
}

/// What stops `d` from holding a complete frame at its front, if anything.
pub open spec fn frame_error(d: Seq<u8>) -> Option<FrameError> {
    if d.len() < 1 {
        Some(FrameError::Incomplete)
    } else if d[0] < 128 {
        Some(FrameError::Fragmented)
    } else if d.len() < 2 {
        Some(FrameError::Incomplete)
    } else if short_len(d) == LEN64_MARK && d.len() >= 3 && d[2] >= 128 {
        Some(FrameError::TooLong)
    } else if d.len() < 2 + ext_len(d) {
        Some(FrameError::Incomplete)
    } else if declared_len(d) >= LEN64_LIMIT {
        Some(FrameError::TooLong)
    } else if d.len() < header_len(d) + declared_len(d) {
        Some(FrameError::Incomplete)
    } else {
        None
    }
}

/// Bytes taken by the frame at the front of `d`.
pub open spec fn frame_len(d: Seq<u8>) -> nat {
    header_len(d) + declared_len(d)
}

/// The unmasked payload of the frame at the front of `d`.
pub open spec fn frame_payload(d: Seq<u8>) -> Seq<u8> {
    let raw = d.subrange(header_len(d) as int, frame_len(d) as int);
    if is_masked(d) {
        xor_mask(raw, mask_key(d))
    } else {
        raw
    }
}

proof fn lemma_pow256_pos(k: nat)
    ensures
        pow256(k) >= 1,
    decreases k,
{
    if k > 0 {
        lemma_pow256_pos((k - 1) as nat);
    }
}

proof fn lemma_pow256_eight()
    ensures
        pow256(8) == 0x1_0000_0000_0000_0000,
        pow256(2) == 0x1_0000,
{
    reveal_with_fuel(pow256, 9);
}

proof fn lemma_be_bytes_len(n: nat, k: nat)
    ensures
        be_bytes(n, k).len() == k,
    decreases k,
{
    if k > 0 {
        lemma_be_bytes_len(n / 256, (k - 1) as nat);
    }
}

proof fn lemma_be_value_first(s: Seq<u8>)
    requires
        s.len() >= 1,
    ensures
        be_value(s) >= s[0] * pow256((s.len() - 1) as nat),
    decreases s.len(),
{
    if s.len() == 1 {
        assert(s.drop_last() =~= Seq::<u8>::empty());
        assert(be_value(s.drop_last()) == 0);
        assert(pow256(0) == 1);
        assert(be_value(s) == s[0]);
    } else {
        let t = s.drop_last();
        lemma_be_value_first(t);
        assert(t[0] == s[0]);
        let p = pow256((t.len() - 1) as nat);
        let v = be_value(t);
        let b = s[0] as int;
        assert(pow256((s.len() - 1) as nat) == 256 * p);
        assert(be_value(s) == v * 256 + s.last());
        assert(v * 256 + s.last() >= b * (256 * p)) by (nonlinear_arith)
            requires
                v >= b * p,
        ;
    }
}

/// Reading `k` big-endian bytes of `n` gives `n` modulo `256^k`.
pub proof fn lemma_be_round_trip(n: nat, k: nat)
    ensures
        be_value(be_bytes(n, k)) == n % pow256(k),
    decreases k,
{
    if k == 0 {
    } else {
        let km = (k - 1) as nat;
        lemma_be_round_trip(n / 256, km);
        lemma_be_bytes_len(n / 256, km);
        let s = be_bytes(n, k);
        assert(s.drop_last() =~= be_bytes(n / 256, km));
        lemma_pow256_pos(km);
        lemma_mod_breakdown(n as int, 256, pow256(km) as int);
        assert(pow256(k) == 256 * pow256(km));
    }
}

/// Reads `k` big-endian bytes of `data` from `start`.
fn read_be(data: &Vec<u8>, start: usize, k: usize) -> (r: u64)
    requires
        start + k <= data.len(),
        k <= 8,
    ensures
        r as nat == be_value(data@.subrange(start as int, start + k)),
{
    let mut val: u64 = 0;
    let mut i: usize = 0;
    proof {
        lemma_pow256_eight();
        assert(data@.subrange(start as int, start as int) =~= Seq::<u8>::empty());
    }
    while i < k
        invariant
            i <= k <= 8,
            start + k <= data.len(),
            val as nat == be_value(data@.subrange(start as int, start + i)),
            val < pow256(i as nat),
            pow256(8) == 0x1_0000_0000_0000_0000,
        decreases k - i,
    {
        let b = data[start + i];
        proof {
            let s = data@.subrange(start as int, start + i + 1);
            assert(s.drop_last() =~= data@.subrange(start as int, start + i));
            lemma_pow256_mono(i as nat + 1, 8);
            let p = pow256(i as nat);
            assert(val * 256 + b < p * 256) by (nonlinear_arith)
                requires
                    val < p,
                    b < 256,
            ;
        }
        val = val * 256 + b as u64;
        i += 1;
    }
    val
}

proof fn lemma_pow256_mono(a: nat, b: nat)
    requires
        a <= b,
    ensures
        pow256(a) <= pow256(b),
    decreases b,
{
    if a < b {
        lemma_pow256_mono(a, (b - 1) as nat);
        lemma_pow256_pos((b - 1) as nat);
    }
}

/// Appends the last `k` big-endian bytes of `n`.
fn push_be(out: &mut Vec<u8>, n: u64, k: usize)
    ensures
        final(out)@ == old(out)@ + be_bytes(n as nat, k as nat),
    decreases k,
{
    if k > 0 {
        push_be(out, n / 256, k - 1);
        out.push((n % 256) as u8);
        assert(out@ =~= old(out)@ + be_bytes(n as nat, k as nat));
    } else {
        assert(old(out)@ + be_bytes(n as nat, 0) =~= old(out)@);
    }
}

proof fn lemma_length_field(n: nat)
    requires
        n < LEN64_LIMIT,
    ensures
        ({
            let lf = length_field(n);
            &&& lf[0] < 128
            &&& lf.len() == if n <= SHORT_LEN_MAX {
                1nat
            } else if n <= LEN16_MAX {
                3nat
            } else {
                9nat
            }
            &&& n <= SHORT_LEN_MAX ==> lf[0] == n
            &&& SHORT_LEN_MAX < n <= LEN16_MAX ==> lf[0] == LEN16_MARK && be_value(lf.subrange(1, 3)) == n
            &&& LEN16_MAX < n ==> lf[0] == LEN64_MARK && be_value(lf.subrange(1, 9)) == n && lf[1] < 128
        }),
{
    let lf = length_field(n);
    lemma_pow256_eight();
    if n <= SHORT_LEN_MAX {
    } else if n <= LEN16_MAX {
        lemma_be_bytes_len(n, 2);
        lemma_be_round_trip(n, 2);
        assert(lf.subrange(1, 3) =~= be_bytes(n, 2));
    } else {
        lemma_be_bytes_len(n, 8);
        lemma_be_round_trip(n, 8);
        assert(lf.subrange(1, 9) =~= be_bytes(n, 8));
        let b = be_bytes(n, 8);
        lemma_be_value_first(b);
        assert(b[0] == lf[1]);
        let b0 = b[0] as int;
        assert(b0 < 128) by (nonlinear_arith)
            requires
                n >= b0 * 0x100_0000_0000_0000,
                n < 0x8000_0000_0000_0000,
        ;
    }
}

/// Encoding then decoding gives back the payload: the unmasked frame of `p` decodes,
/// in full, to `p`.
pub proof fn lemma_frame_round_trip(p: Seq<u8>)
    requires
        p.len() < LEN64_LIMIT,
    ensures
        frame_error(encode_frame(p)).is_none(),
        frame_len(encode_frame(p)) == encode_frame(p).len(),
        frame_payload(encode_frame(p)) == p,
{
    let f = encode_frame(p);
    let lf = length_field(p.len());
    lemma_length_field(p.len());
    assert(f[1] == lf[0]);
    assert(!is_masked(f));
    assert(short_len(f) == lf[0]);
    if p.len() > SHORT_LEN_MAX && p.len() <= LEN16_MAX {
        assert(f.subrange(2, 4) =~= lf.subrange(1, 3));
    } else if p.len() > LEN16_MAX {
        assert(f.subrange(2, 10) =~= lf.subrange(1, 9));
    }
    assert(header_len(f) == 1 + lf.len());
    assert(f.subrange(header_len(f) as int, frame_len(f) as int) =~= p);
}

/// Masking is undone on decoding: the frame of `p` masked with any four-byte `key`
/// decodes, in full, to `p`.
pub proof fn lemma_masked_frame_round_trip(p: Seq<u8>, key: Seq<u8>)
    requires
        p.len() < LEN64_LIMIT,
        key.len() == 4,
    ensures
        frame_error(encode_masked_frame(p, key)).is_none(),
        frame_len(encode_masked_frame(p, key)) == encode_masked_frame(p, key).len(),
        frame_payload(encode_masked_frame(p, key)) == p,
{
    let f = encode_masked_frame(p, key);
    let lf = length_field(p.len());
    lemma_length_field(p.len());
    assert(f[1] == lf[0] + 128);
    assert(is_masked(f));
    assert(short_len(f) == lf[0]);
    if p.len() > SHORT_LEN_MAX && p.len() <= LEN16_MAX {
        assert(f.subrange(2, 4) =~= lf.subrange(1, 3));
    } else if p.len() > LEN16_MAX {
        assert(f.subrange(2, 10) =~= lf.subrange(1, 9));
    }
    assert(header_len(f) == 1 + lf.len() + 4);
    assert(mask_key(f) =~= key);
    let raw = f.subrange(header_len(f) as int, frame_len(f) as int);
    assert(raw =~= xor_mask(p, key));
    assert forall|i: int| 0 <= i < p.len() implies #[trigger] xor_mask(raw, key)[i] == p[i] by {
        let a = p[i];
        let b = key[i % 4];
        assert((a ^ b) ^ b == a) by (bit_vector);
    }
    assert(xor_mask(raw, key) =~= p);
}

/// Partial delivery: every proper prefix of a complete frame reports `Incomplete`, and
/// bytes that follow a complete frame do not change how it decodes.
pub proof fn lemma_partial_delivery(d: Seq<u8>, rest: Seq<u8>)
    requires
        frame_error(d).is_none(),
    ensures
        forall|k: int| 0 <= k < frame_len(d) ==> frame_error(#[trigger] d.take(k)) == Some(FrameError::Incomplete),
        frame_error(d + rest).is_none(),
        frame_len(d + rest) == frame_len(d),
        frame_payload(d + rest) == frame_payload(d),
{
    assert forall|k: int| 0 <= k < frame_len(d) implies frame_error(#[trigger] d.take(k)) == Some(FrameError::Incomplete) by {
        let t = d.take(k);
        if k >= 2 {
            assert(t[0] == d[0] && t[1] == d[1]);
            if k >= 2 + ext_len(d) {
                if ext_len(d) == 2 {
                    assert(t.subrange(2, 4) =~= d.subrange(2, 4));
                }
                if ext_len(d) == 8 {
                    assert(t.subrange(2, 10) =~= d.subrange(2, 10));
                }
            }
        }
    }
    let e = d + rest;
    assert(e[0] == d[0] && e[1] == d[1]);
    if ext_len(d) == 2 {
        assert(e.subrange(2, 4) =~= d.subrange(2, 4));
    }
    if ext_len(d) == 8 {
        assert(e.subrange(2, 10) =~= d.subrange(2, 10));
    }
    assert(e.subrange(header_len(d) as int, frame_len(d) as int) =~= d.subrange(header_len(d) as int, frame_len(d) as int));
    if is_masked(d) {
        assert(mask_key(e) =~= mask_key(d));
    }
}

/// The header at the front of `d` is all there, and names a length the decoder accepts.
pub open spec fn header_known(d: Seq<u8>) -> bool {
    &&& d.len() >= 2
    &&& d[0] >= 128
    &&& d.len() >= 2 + ext_len(d)
    &&& declared_len(d) < LEN64_LIMIT
}

pub struct WebSocketFrame;

impl WebSocketFrame {
    /// The full length of the frame whose header starts `data`, once the header is known.
    pub fn frame_size(data: &Vec<u8>) -> (r: Option<u64>)
        ensures
            match r {
                Some(n) => header_known(data@) && n == frame_len(data@),
                None => !header_known(data@),
            },
    {
        let n = data.len();
        if n < 2 || data[0] < 128 {
            return None;
        }
        let len7 = data[1] % 128;
        let ext: usize = if len7 == LEN16_MARK {
            2
        } else if len7 == LEN64_MARK {
            8
        } else {
            0
        };
        if n < 2 + ext {
            return None;
        }
        let declared: u64 = if len7 == LEN16_MARK {
            read_be(data, 2, 2)
        } else if len7 == LEN64_MARK {
            read_be(data, 2, 8)
        } else {
            len7 as u64
        };
        if declared >= LEN64_LIMIT {
            return None;
        }
        let hl: u64 = if data[1] >= 128 {
            2 + ext as u64 + 4
        } else {
            2 + ext as u64
        };
        Some(hl + declared)
    }

    /// Wraps `payload` in one final, unmasked text frame.
    pub fn to_websocket(payload: Vec<u8>) -> (r: Vec<u8>)
        ensures
            r@ == encode_frame(payload@),
    {
        let mut frame: Vec<u8> = Vec::new();
        frame.push(TEXT_FRAME_HEAD);
        let payload_len = payload.len();
        if payload_len <= SHORT_LEN_MAX as usize {
            frame.push(payload_len as u8);
        } else if payload_len <= LEN16_MAX {
            frame.push(LEN16_MARK);
            push_be(&mut frame, payload_len as u64, 2);
        } else {
            frame.push(LEN64_MARK);
            push_be(&mut frame, payload_len as u64, 8);
        }
        let ghost head = frame@;
        let mut i: usize = 0;
        while i < payload.len()
            invariant
                i <= payload.len(),
                frame@ == head + payload@.subrange(0, i as int),
            decreases payload.len() - i,
        {
            frame.push(payload[i]);
            i += 1;
            assert(frame@ =~= head + payload@.subrange(0, i as int));
        }
        assert(payload@.subrange(0, payload.len() as int) =~= payload@);
        assert(head =~= seq![TEXT_FRAME_HEAD] + length_field(payload@.len()));
        frame
    }

    /// Takes one frame off the front of `data` and returns its unmasked payload. On an
    /// error `data` is left as it was.
    pub fn parse(data: &mut Vec<u8>) -> (r: Result<Vec<u8>, FrameError>)
        ensures
            match r {
                Ok(p) => {
                    &&& frame_error(old(data)@).is_none()
                    &&& p@ == frame_payload(old(data)@)
                    &&& final(data)@ == old(data)@.subrange(
                        frame_len(old(data)@) as int,
                        old(data)@.len() as int,
                    )
                },
                Err(e) => frame_error(old(data)@) == Some(e) && final(data)@ == old(data)@,
            },
    {
        let ghost d = data@;
        let n = data.len();
        if n < 1 {
            return Err(FrameError::Incomplete);
        }
        if data[0] < 128 {
            return Err(FrameError::Fragmented);
        }
        if n < 2 {
            return Err(FrameError::Incomplete);
        }
        let masked = data[1] >= 128;
        let len7 = data[1] % 128;
        if len7 == LEN64_MARK && n >= 3 && data[2] >= 128 {
            return Err(FrameError::TooLong);
        }
        let ext: usize = if len7 == LEN16_MARK {
            2
        } else if len7 == LEN64_MARK {
            8
        } else {
            0
        };
        if n < 2 + ext {
            return Err(FrameError::Incomplete);
        }
        let declared: u64 = if len7 == LEN16_MARK {
            read_be(data, 2, 2)
        } else if len7 == LEN64_MARK {
            read_be(data, 2, 8)
        } else {
            len7 as u64
        };
        if declared >= LEN64_LIMIT {
            return Err(FrameError::TooLong);
        }
        let hl: usize = if masked {
            2 + ext + 4
        } else {
            2 + ext
        };
        if n < hl || ((n - hl) as u64) < declared {
            return Err(FrameError::Incomplete);
        }
        let dl = declared as usize;
        let total = hl + dl;
        let mut key: Vec<u8> = Vec::new();
        if masked {
            key.push(data[2 + ext]);
            key.push(data[3 + ext]);
            key.push(data[4 + ext]);
            key.push(data[5 + ext]);
            assert(key@ =~= mask_key(d));
        }
        let mut payload: Vec<u8> = Vec::new();
        let mut i: usize = 0;
        while i < dl
            invariant
                data@ == d,
                i <= dl,
                hl + dl == total <= n == d.len(),
                hl == header_len(d),
                dl == declared_len(d),
                masked == is_masked(d),
                masked ==> key@ == mask_key(d),
                payload@.len() == i,
                forall|j: int|
                    0 <= j < i ==> payload@[j] == frame_payload(d)[j],
            decreases dl - i,
        {
            let b = data[hl + i];
            if masked {
                payload.push(b ^ key[i % 4]);
            } else {
                payload.push(b);
            }
            i += 1;
        }
        assert(payload@ =~= frame_payload(d));
        let mut rest: Vec<u8> = Vec::new();
        let mut j: usize = total;
        while j < n
            invariant
                data@ == d,
                total <= j <= n == d.len(),
                rest@ == d.subrange(total as int, j as int),
            decreases n - j,
        {
            rest.push(data[j]);
            j += 1;
            assert(rest@ =~= d.subrange(total as int, j as int));
        }
        *data = rest;
        Ok(payload)
    }
}

} // verus!
