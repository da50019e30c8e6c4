//! The chunk packet that carries one piece of a stream to a node.
use vstd::prelude::*;
use crate::buffer::{bytes_view, bytes_to_vec};

verus! {

/// Magic number at the head of every packet ("HYDR").
pub const PACKET_MAGIC: u32 = 0x48594452;

/// The reflected CRC-32 polynomial.
pub const CRC32_POLY: u32 = 0xEDB88320;

/// One shift of the CRC-32 register: drop the low bit and fold the
/// polynomial in when that bit was set.
pub open spec fn crc_shift(crc: u32) -> u32 {
    if crc & 1 != 0 {
        (crc >> 1) ^ CRC32_POLY
    } else {
        crc >> 1
    }
}

/// `n` shifts of the CRC-32 register.
pub open spec fn crc_shifts(crc: u32, n: nat) -> u32
    decreases n,
{
    if n == 0 {
        crc
    } else {
        crc_shift(crc_shifts(crc, (n - 1) as nat))
    }
}

/// The register after absorbing one byte.
pub open spec fn crc_absorb(crc: u32, b: u8) -> u32 {
    crc_shifts(crc ^ (b as u32), 8)
}

/// The CRC-32 register after absorbing all of `data`, starting from all ones.
pub open spec fn crc_register(data: Seq<u8>) -> u32
    decreases data.len(),
{
    if data.len() == 0 {
        0xFFFF_FFFFu32
    } else {
        crc_absorb(crc_register(data.drop_last()), data.last())
    }
}

/// The CRC-32 (IEEE, reflected) checksum of `data`.
pub open spec fn checksum_of(data: Seq<u8>) -> u32 {
    crc_register(data) ^ 0xFFFF_FFFFu32
}

/// A chunk of a stream, as sent to and received from a node.
#[derive(Debug, Clone)]
pub struct Packet {
    pub magic: u32,
    pub session_id: u64,
    pub stream_id: u32,
    pub chunk_id: u32,
    pub offset: u64,
    pub length: u32,
    pub payload: Vec<u8>,
    pub checksum: u32,
}

/// A packet as a mathematical value: its fields, with the payload as a
/// sequence of bytes.
pub struct PacketView {
    pub magic: u32,
    pub session_id: u64,
    pub stream_id: u32,
    pub chunk_id: u32,
    pub offset: u64,
    pub length: u32,
    pub payload: Seq<u8>,
    pub checksum: u32,
}

impl PacketView {
    /// Whether the stored checksum matches the payload.
    pub open spec fn checksum_ok(self) -> bool {
        self.checksum == checksum_of(self.payload)
    }

    /// Whether the byte range the packet claims ends within `u64`.
    pub open spec fn end_fits(self) -> bool {
        self.offset + self.length <= u64::MAX
    }
}

impl View for Packet {
    type V = PacketView;

    open spec fn view(&self) -> PacketView {
        PacketView {
            magic: self.magic,
            session_id: self.session_id,
            stream_id: self.stream_id,
            chunk_id: self.chunk_id,
            offset: self.offset,
            length: self.length,
            payload: self.payload@,
            checksum: self.checksum,
        }
    }
}

impl Packet {
    /// Whether the stored checksum matches the payload.
    pub open spec fn checksum_ok(&self) -> bool {
        self@.checksum_ok()
    }

    /// Builds a packet around `payload`, recording its length (truncated to
    /// 32 bits) and its CRC-32.
    pub fn new(
        session_id: u64,
        stream_id: u32,
        chunk_id: u32,
        offset: u64,
        payload: bytes::Bytes,
    ) -> (p: Packet)
        ensures
            p.magic == PACKET_MAGIC,
            p.session_id == session_id,
            p.stream_id == stream_id,
            p.chunk_id == chunk_id,
            p.offset == offset,
            p.payload@ == bytes_view(payload),
            p.length == bytes_view(payload).len() as u32,
            p.checksum == checksum_of(bytes_view(payload)),
            p.checksum_ok(),
    {
        let data = bytes_to_vec(&payload);
        let length = #[verifier::truncate] (data.len() as u32);
        let checksum = Self::calculate_checksum(data.as_slice());
        Packet {
            magic: PACKET_MAGIC,
            session_id,
            stream_id,
            chunk_id,
            offset,
            length,
            payload: data,
            checksum,
        }
    }

    /// CRC-32 of `data`.
    pub fn calculate_checksum(data: &[u8]) -> (crc: u32)
        ensures
            crc == checksum_of(data@),
    {
        let mut crc: u32 = 0xFFFF_FFFF;
        let mut i: usize = 0;
        while i < data.len()
            invariant
                i <= data@.len(),
                crc == crc_register(data@.subrange(0, i as int)),
            decreases data@.len() - i,
        {
            assert(data@.subrange(0, i + 1).drop_last() =~= data@.subrange(0, i as int));
            crc = crc ^ (data[i] as u32);
            let ghost start = crc;
            let mut k: u32 = 0;
            while k < 8
                invariant
                    k <= 8,
                    crc == crc_shifts(start, k as nat),
                decreases 8 - k,
            {
                if crc & 1 != 0 {
                    crc = (crc >> 1) ^ CRC32_POLY;
                } else {
                    crc = crc >> 1;
                }
                k = k + 1;
            }
            i = i + 1;
        }
        assert(data@.subrange(0, data@.len() as int) =~= data@);
        crc ^ 0xFFFF_FFFF
    }

    /// Whether the stored checksum matches the payload.
    pub fn verify_checksum(&self) -> (ok: bool)
        ensures
            ok == self.checksum_ok(),
    {
        let calculated = Self::calculate_checksum(self.payload.as_slice());
        self.checksum == calculated
    }
}

proof fn lemma_crc_shift_injective(a: u32, b: u32)
    requires
        crc_shift(a) == crc_shift(b),
    ensures
        a == b,
{
    assert(a == b) by (bit_vector)
        requires
            (if a & 1 != 0 { (a >> 1) ^ 0xEDB88320u32 } else { a >> 1 }) == (if b & 1 != 0 {
                (b >> 1) ^ 0xEDB88320u32
            } else {
                b >> 1
            }),
    ;
}

proof fn lemma_crc_shifts_injective(a: u32, b: u32, n: nat)
    requires
        crc_shifts(a, n) == crc_shifts(b, n),
    ensures
        a == b,
    decreases n,
{
    if n > 0 {
        lemma_crc_shift_injective(crc_shifts(a, (n - 1) as nat), crc_shifts(b, (n - 1) as nat));
        lemma_crc_shifts_injective(a, b, (n - 1) as nat);
    }
}

/// Absorbing a byte loses nothing: different registers, or different
/// bytes, give different registers.
proof fn lemma_crc_absorb_injective(a: u32, x: u8, b: u32, y: u8)
    requires
        crc_absorb(a, x) == crc_absorb(b, y),
        a == b || x == y,
    ensures
        a == b && x == y,
{
    lemma_crc_shifts_injective(a ^ (x as u32), b ^ (y as u32), 8);
    assert(a == b && x == y) by (bit_vector)
        requires
            a ^ (x as u32) == b ^ (y as u32),
            a == b || x == y,
    ;
}

/// The checksum takes in every byte: appending a byte to any data takes
/// the checksum one CRC-32 register step further, on that byte.
pub proof fn checksum_absorbs_each_byte(data: Seq<u8>, b: u8)
    ensures
        checksum_of(data.push(b)) == crc_absorb(checksum_of(data) ^ 0xFFFF_FFFFu32, b) ^ 0xFFFF_FFFFu32,
{
    let r = crc_register(data);
    assert(data.push(b).drop_last() =~= data);
    assert((r ^ 0xFFFF_FFFFu32) ^ 0xFFFF_FFFFu32 == r) by (bit_vector);
}

/// Changing any one byte of data of any length changes its checksum.
pub proof fn checksum_detects_one_changed_byte(d1: Seq<u8>, d2: Seq<u8>, k: int)
    requires
        d1.len() == d2.len(),
        0 <= k < d1.len(),
        d1[k] != d2[k],
        forall|j: int| 0 <= j < d1.len() && j != k ==> d1[j] == d2[j],
    ensures
        checksum_of(d1) != checksum_of(d2),
{
    lemma_register_differs(d1, d2, k);
    let a = crc_register(d1);
    let b = crc_register(d2);
    assert(a ^ 0xFFFF_FFFFu32 != b ^ 0xFFFF_FFFFu32) by (bit_vector)
        requires
            a != b,
    ;
}

proof fn lemma_register_differs(d1: Seq<u8>, d2: Seq<u8>, k: int)
    requires
        d1.len() == d2.len(),
        0 <= k < d1.len(),
        d1[k] != d2[k],
        forall|j: int| 0 <= j < d1.len() && j != k ==> d1[j] == d2[j],
    ensures
        crc_register(d1) != crc_register(d2),
    decreases d1.len(),
{
    let p1 = d1.drop_last();
    let p2 = d2.drop_last();
    let n = d1.len() - 1;
    if k == n {
        assert(p1 =~= p2);
        if crc_register(d1) == crc_register(d2) {
            lemma_crc_absorb_injective(crc_register(p1), d1.last(), crc_register(p2), d2.last());
        }
    } else {
        lemma_register_differs(p1, p2, k);
        assert(d1.last() == d2[n]);
        if crc_register(d1) == crc_register(d2) {
            lemma_crc_absorb_injective(crc_register(p1), d1.last(), crc_register(p2), d2.last());
        }
    }
}

} // verus!
