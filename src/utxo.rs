//! Records of a block chain file and the hexadecimal text of hashes.
use vstd::prelude::*;
use vstd::string::StringExecFns;

verus! {

pub type Hash = [u8; 32];

/// A block header.
#[derive(Clone, Copy, Debug)]
pub struct Header {
    pub version: u32,
    pub previous_hash: Hash,
    pub merkle_hash: Hash,
    pub time: u32,
    pub bits: u32,
    pub nonce: u32,
}

/// A transaction input: the output it spends and its unlocking script.
#[derive(Clone, Debug, PartialEq, Eq, PartialOrd, Ord)]
pub struct TxInput {
    pub prev_hash: Hash,
    pub out_id: u32,
    pub script_sig: Vec<u8>,
    pub seq_no: u32,
}

/// A transaction output: an amount and its locking script.
#[derive(Clone, Debug, PartialEq, Eq, PartialOrd, Ord)]
pub struct TxOutput {
    pub value: u64,
    pub pubkey: Vec<u8>,
}

/// The upper-case hexadecimal digit of a value below sixteen.
pub open spec fn hex_char(d: nat) -> char {
    if d < 10 {
        (d + '0' as u32) as char
    } else {
        (d - 10 + 'A' as u32) as char
    }
}

/// Two upper-case hexadecimal digits per byte, high digit first.
pub open spec fn hex_upper(b: Seq<u8>) -> Seq<char>
    decreases b.len(),
{
    if b.len() == 0 {
        Seq::empty()
    } else {
        hex_upper(b.drop_last()) + seq![hex_char(b.last() as nat / 16), hex_char(b.last() as nat % 16)]
    }
}

fn hex_digit(d: u8) -> (r: &'static str)
    requires
        d < 16,
    ensures
        r@ == seq![hex_char(d as nat)],
{
    proof {
        reveal_strlit("0");
        reveal_strlit("1");
        reveal_strlit("2");
        reveal_strlit("3");
        reveal_strlit("4");
        reveal_strlit("5");
        reveal_strlit("6");
        reveal_strlit("7");
        reveal_strlit("8");
        reveal_strlit("9");
        reveal_strlit("A");
        reveal_strlit("B");
        reveal_strlit("C");
        reveal_strlit("D");
        reveal_strlit("E");
        reveal_strlit("F");
    }
    match d {
        0 => "0",
        1 => "1",
        2 => "2",
        3 => "3",
        4 => "4",
        5 => "5",
        6 => "6",
        7 => "7",
        8 => "8",
        9 => "9",
        10 => "A",
        11 => "B",
        12 => "C",
        13 => "D",
        14 => "E",
        _ => "F",
    }
}

/// The bytes as upper-case hexadecimal text, two digits each.
pub fn hash_str(hash: &[u8]) -> (r: String)
    ensures
        r@ == hex_upper(hash@),
{
    let mut out = String::new();
    let mut i: usize = 0;
    proof {
        assert(hash@.take(0).len() == 0);
        assert(out@ =~= hex_upper(hash@.take(0)));
    }
    while i < hash.len()
        invariant
            i <= hash@.len(),
            out@ == hex_upper(hash@.take(i as int)),
        decreases hash@.len() - i,
    {
        let b = hash[i];
        out.append(hex_digit(b / 16));
        out.append(hex_digit(b % 16));
        proof {
            assert(hash@.take(i + 1).drop_last() =~= hash@.take(i as int));
            assert(out@ =~= hex_upper(hash@.take(i + 1)));
        }
        i = i + 1;
    }
    proof {
        assert(hash@.take(i as int) =~= hash@);
    }
    out
}

/// The little-endian value of the four bytes from `pos`.
pub open spec fn le_u32(b: Seq<u8>, pos: int) -> nat {
    b[pos] as nat + b[pos + 1] as nat * 0x100 + b[pos + 2] as nat * 0x1_0000 + b[pos + 3] as nat * 0x100_0000
}

/// The little-endian value of the eight bytes from `pos`.
pub open spec fn le_u64(b: Seq<u8>, pos: int) -> nat {
    le_u32(b, pos) + le_u32(b, pos + 4) * 0x1_0000_0000
}

/// A hash as stored: 32 bytes in reverse order.
pub open spec fn stored_hash(b: Seq<u8>, pos: int) -> Seq<u8> {
    b.subrange(pos, pos + 32).reverse()
}

fn read_u8(bytes: &[u8], pos: usize) -> (r: Option<(u8, usize)>)
    ensures
        r is Some <==> pos < bytes@.len(),
        r matches Some((v, end)) ==> v == bytes@[pos as int] && end == pos + 1,
{
    if pos < bytes.len() {
        Some((bytes[pos], pos + 1))
    } else {
        None
    }
}

fn read_u32(bytes: &[u8], pos: usize) -> (r: Option<(u32, usize)>)
    ensures
        r is Some <==> pos + 4 <= bytes@.len(),
        r matches Some((v, end)) ==> v as nat == le_u32(bytes@, pos as int) && end == pos + 4,
{
    if pos > bytes.len() || bytes.len() - pos < 4 {
        return None;
    }
    let v = bytes[pos] as u32 + bytes[pos + 1] as u32 * 0x100 + bytes[pos + 2] as u32 * 0x1_0000
        + bytes[pos + 3] as u32 * 0x100_0000;
    Some((v, pos + 4))
}

fn read_u64(bytes: &[u8], pos: usize) -> (r: Option<(u64, usize)>)
    ensures
        r is Some <==> pos + 8 <= bytes@.len(),
        r matches Some((v, end)) ==> v as nat == le_u64(bytes@, pos as int) && end == pos + 8,
{
    if pos > bytes.len() || bytes.len() - pos < 8 {
        return None;
    }
    let (lo, mid) = read_u32(bytes, pos).unwrap();
    let (hi, end) = read_u32(bytes, mid).unwrap();
    Some((lo as u64 + hi as u64 * 0x1_0000_0000, end))
}

fn read_hash(bytes: &[u8], pos: usize) -> (r: Option<(Hash, usize)>)
    ensures
        r is Some <==> pos + 32 <= bytes@.len(),
        r matches Some((h, end)) ==> h@ == stored_hash(bytes@, pos as int) && end == pos + 32,
{
    if pos > bytes.len() || bytes.len() - pos < 32 {
        return None;
    }
    let total = bytes.len();
    let mut h: Hash = [0u8; 32];
    let mut i: usize = 0;
    while i < 32
        invariant
            total == bytes@.len(),
            pos + 32 <= total,
            i <= 32,
            forall|j: int| 0 <= j < i ==> h@[j] == bytes@[pos + 31 - j],
        decreases 32 - i,
    {
        h[i] = bytes[pos + 31 - i];
        i = i + 1;
    }
    proof {
        assert(h@ =~= stored_hash(bytes@, pos as int));
    }
    Some((h, pos + 32))
}

fn read_bytes(bytes: &[u8], pos: usize, n: usize) -> (r: Option<(Vec<u8>, usize)>)
    ensures
        r is Some <==> pos + n <= bytes@.len(),
        r matches Some((v, end)) ==> v@ == bytes@.subrange(pos as int, pos + n) && end == pos + n,
{
    if pos > bytes.len() || bytes.len() - pos < n {
        return None;
    }
    let total = bytes.len();
    let mut v: Vec<u8> = Vec::new();
    let mut i: usize = 0;
    while i < n
        invariant
            total == bytes@.len(),
            pos + n <= total,
            i <= n,
            v@ == bytes@.subrange(pos as int, pos + i),
        decreases n - i,
    {
        v.push(bytes[pos + i]);
        i = i + 1;
        proof {
            assert(v@ =~= bytes@.subrange(pos as int, pos + i));
        }
    }
    Some((v, pos + n))
}

impl Header {
    /// Reads a header stored from `pos`: version, previous hash, Merkle root,
    /// time, difficulty bits and nonce, 80 bytes in all.
    pub fn parse(bytes: &[u8], pos: usize) -> (r: Option<(Header, usize)>)
        ensures
            r is Some <==> pos + 80 <= bytes@.len(),
            r matches Some((h, end)) ==> {
                &&& end == pos + 80
                &&& h.version as nat == le_u32(bytes@, pos as int)
                &&& h.previous_hash@ == stored_hash(bytes@, pos + 4)
                &&& h.merkle_hash@ == stored_hash(bytes@, pos + 36)
                &&& h.time as nat == le_u32(bytes@, pos + 68)
                &&& h.bits as nat == le_u32(bytes@, pos + 72)
                &&& h.nonce as nat == le_u32(bytes@, pos + 76)
            },
    {
        if pos > bytes.len() || bytes.len() - pos < 80 {
            return None;
        }
        let (version, p) = read_u32(bytes, pos).unwrap();
        let (previous_hash, p) = read_hash(bytes, p).unwrap();
        let (merkle_hash, p) = read_hash(bytes, p).unwrap();
        let (time, p) = read_u32(bytes, p).unwrap();
        let (bits, p) = read_u32(bytes, p).unwrap();
        let (nonce, p) = read_u32(bytes, p).unwrap();
        Some((Header { version, previous_hash, merkle_hash, time, bits, nonce }, p))
    }
}

impl TxInput {
    /// Reads an input stored from `pos`: the spent output's hash and index, a
    /// one-byte script length, the script and the sequence number.
    pub fn parse(bytes: &[u8], pos: usize) -> (r: Option<(TxInput, usize)>)
        ensures
            r is Some <==> pos + 37 <= bytes@.len() && pos + 41 + bytes@[pos + 36] <= bytes@.len(),
            r matches Some((t, end)) ==> {
                let n = bytes@[pos + 36] as int;
                &&& end == pos + 41 + n
                &&& t.prev_hash@ == stored_hash(bytes@, pos as int)
                &&& t.out_id as nat == le_u32(bytes@, pos + 32)
                &&& t.script_sig@ == bytes@.subrange(pos + 37, pos + 37 + n)
                &&& t.seq_no as nat == le_u32(bytes@, pos + 37 + n)
            },
    {
        if pos > bytes.len() || bytes.len() - pos < 37 {
            return None;
        }
        let (prev_hash, p) = read_hash(bytes, pos).unwrap();
        let (out_id, p) = read_u32(bytes, p).unwrap();
        let (script_len, p) = read_u8(bytes, p).unwrap();
        if bytes.len() - p < script_len as usize + 4 {
            return None;
        }
        let (script_sig, p) = read_bytes(bytes, p, script_len as usize).unwrap();
        let (seq_no, p) = read_u32(bytes, p).unwrap();
        Some((TxInput { prev_hash, out_id, script_sig, seq_no }, p))
    }
}

impl TxOutput {
    /// Reads an output stored from `pos`: the value, a one-byte script length and the script.
    pub fn parse(bytes: &[u8], pos: usize) -> (r: Option<(TxOutput, usize)>)
        ensures
            r is Some <==> pos + 9 <= bytes@.len() && pos + 9 + bytes@[pos + 8] <= bytes@.len(),
            r matches Some((t, end)) ==> {
                let n = bytes@[pos + 8] as int;
                &&& end == pos + 9 + n
                &&& t.value as nat == le_u64(bytes@, pos as int)
                &&& t.pubkey@ == bytes@.subrange(pos + 9, pos + 9 + n)
            },
    {
        if pos > bytes.len() || bytes.len() - pos < 9 {
            return None;
        }
        let (value, p) = read_u64(bytes, pos).unwrap();
        let (script_len, p) = read_u8(bytes, p).unwrap();
        if bytes.len() - p < script_len as usize {
            return None;
        }
        let (pubkey, p) = read_bytes(bytes, p, script_len as usize).unwrap();
        Some((TxOutput { value, pubkey }, p))
    }
}

} // verus!
