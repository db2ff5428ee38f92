use vstd::prelude::*;

use crate::binary::{
    read_var_u32, read_var_u64, string_bytes, var_bytes, var_u32_at, var_u64_at, write_bytes,
    write_var_u32, write_var_u64,
};
use crate::error::{Error, ErrorKind};
use vstd::utf8::encode_utf8;

verus! {

/// Value of a game packet header: the packet identifier in the low ten
/// bits, then two bits each for the sending and the target sub-client.
pub open spec fn header_value(id: int, sender: int, target: int) -> int {
    id + sender * 1024 + target * 4096
}

/// Header in front of every game packet.
#[derive(Debug, Copy, Clone, PartialEq, Eq, Structural)]
pub struct Header {
    pub id: u32,
    pub sender_subclient: u8,
    pub target_subclient: u8,
}

impl Header {
    /// Fields fit their bit widths.
    pub open spec fn spec_fits(&self) -> bool {
        self.id < 1024 && self.sender_subclient < 4 && self.target_subclient < 4
    }

    /// Appends the header as a varint.
    pub fn serialize(&self, buf: &mut Vec<u8>)
        requires
            self.spec_fits(),
        ensures
            final(buf)@ == old(buf)@ + var_bytes(
                header_value(
                    self.id as int,
                    self.sender_subclient as int,
                    self.target_subclient as int,
                ) as nat,
            ),
    {
        let v: u32 = self.id + (self.sender_subclient as u32) * 1024 + (self.target_subclient as u32)
            * 4096;
        write_var_u32(buf, v);
    }

    /// Reads a header from the start of `b`. Fails with `Malformed` where
    /// `b` does not start with a varint that fits 32 bits.
    pub fn deserialize(b: &[u8]) -> (r: Result<Header, Error>)
        ensures
            match var_u32_at(b@, 0) {
                None => r matches Err(e) && e.spec_kind() == ErrorKind::Malformed,
                Some((v, _)) => r matches Ok(h) && h.spec_fits() && v % 16384 == header_value(
                    h.id as int,
                    h.sender_subclient as int,
                    h.target_subclient as int,
                ),
            },
    {
        let (v, _) = read_var_u32(b, 0)?;
        let id = v % 1024;
        let sender = ((v / 1024) % 4) as u8;
        let target = ((v / 4096) % 4) as u8;
        Ok(Header { id, sender_subclient: sender, target_subclient: target })
    }
}

/// Confirms that the connection was successfully initiated.
#[derive(Debug)]
pub struct NewIncomingConnection;

/// Identifier of a new-incoming-connection message.
pub const NEW_INCOMING_CONNECTION_ID: u8 = 0x13;

impl NewIncomingConnection {
    /// Checks the identifier byte; the rest of the message is not used.
    /// Fails with `AssertionFailed` where `b` does not start with it.
    pub fn decode(b: &[u8]) -> (r: Result<NewIncomingConnection, Error>)
        ensures
            r.is_ok() <==> b@.len() > 0 && b@[0] == NEW_INCOMING_CONNECTION_ID,
            r matches Err(e) ==> e.spec_kind() == ErrorKind::AssertionFailed,
    {
        if b.len() == 0 || b[0] != NEW_INCOMING_CONNECTION_ID {
            return Err(
                Error::new(ErrorKind::AssertionFailed, "not a new incoming connection".to_owned()),
            );
        }
        Ok(NewIncomingConnection)
    }
}

/// Sent by the client in response to a server-to-client handshake to
/// confirm that encryption is working. It has no data.
#[derive(Debug)]
pub struct ClientToServerHandshake;

/// Identifier of the client-to-server handshake packet.
pub const CLIENT_TO_SERVER_HANDSHAKE_ID: u32 = 0x04;

impl ClientToServerHandshake {
    /// Any body decodes: the packet carries nothing.
    pub fn deserialize(_buffer: &[u8]) -> (r: Result<ClientToServerHandshake, Error>)
        ensures
            r.is_ok(),
    {
        Ok(ClientToServerHandshake)
    }
}

/// Sent by the server to initiate encryption.
#[derive(Debug, Clone)]
pub struct ServerToClientHandshake {
    /// Token containing the salt and public key.
    pub jwt: String,
}

/// Identifier of the server-to-client handshake packet.
pub const SERVER_TO_CLIENT_HANDSHAKE_ID: u32 = 0x03;

/// Length of the varint encoding of `v`.
pub fn size_of_var(v: u64) -> (r: usize)
    ensures
        r == var_bytes(v as nat).len(),
        1 <= r <= 10,
{
    let mut x: u64 = v;
    let mut n: usize = 1;
    proof {
        lemma_var_len(v as nat);
    }
    while x >= 128
        invariant
            1 <= n <= 10,
            n - 1 + var_bytes(x as nat).len() == var_bytes(v as nat).len(),
            var_bytes(v as nat).len() <= 10,
            x <= v,
        decreases x,
    {
        proof {
            assert(var_bytes(x as nat).len() == 1 + var_bytes((x / 128) as nat).len());
            lemma_var_len((x / 128) as nat);
        }
        x = x / 128;
        n = n + 1;
    }
    n
}

proof fn lemma_var_len(v: nat)
    ensures
        var_bytes(v).len() >= 1,
        v < 0x1_0000_0000_0000_0000 ==> var_bytes(v).len() <= 10,
    decreases v,
{
    if v >= 128 {
        lemma_var_len(v / 128);
        if v < 0x1_0000_0000_0000_0000 {
            lemma_var_len_bound(v);
        }
    }
}

proof fn lemma_var_len_bound(v: nat)
    requires
        v < 0x1_0000_0000_0000_0000,
    ensures
        var_bytes(v).len() <= 10,
{
    reveal_with_fuel(crate::binary::var_cap, 11);
    lemma_var_len_le(v, 9);
}

/// Below `128^(k+1)`, the encoding takes at most `k + 1` bytes.
proof fn lemma_var_len_le(v: nat, k: int)
    requires
        0 <= k,
        v < crate::binary::var_cap(k + 1),
    ensures
        var_bytes(v).len() <= k + 1,
    decreases k,
{
    if v >= 128 {
        if k == 0 {
            assert(crate::binary::var_cap(1) == 128) by {
                reveal_with_fuel(crate::binary::var_cap, 2);
            }
        } else {
            assert(crate::binary::var_cap(k + 1) == 128 * crate::binary::var_cap(k));
            lemma_var_len_le(v / 128, k - 1);
        }
    }
}


/// Bytes of a string as UTF-8.
pub open spec fn utf8(s: Seq<char>) -> Seq<u8> {
    encode_utf8(s)
}

impl ServerToClientHandshake {
    /// Number of bytes that `serialize` appends.
    pub fn serialized_size(&self) -> (r: usize)
        requires
            utf8(self.jwt@).len() <= u32::MAX,
            string_bytes(utf8(self.jwt@)).len() <= usize::MAX,
        ensures
            r == string_bytes(utf8(self.jwt@)).len(),
    {
        let n = self.jwt.as_str().len();
        size_of_var(n as u64) + n
    }

    /// Appends the token as a length-prefixed string.
    pub fn serialize(&self, buf: &mut Vec<u8>)
        requires
            utf8(self.jwt@).len() <= u32::MAX,
        ensures
            final(buf)@ == old(buf)@ + string_bytes(utf8(self.jwt@)),
    {
        write_bytes(buf, self.jwt.as_str().as_bytes());
    }
}

/// A blob of the client cache: its hash and its payload.
pub struct CacheBlob {
    pub hash: u64,
    pub payload: Vec<u8>,
}

/// Encoding of a blob: the hash as a varint, then the payload as a
/// length-prefixed byte string.
pub open spec fn blob_bytes(b: CacheBlob) -> Seq<u8> {
    var_bytes(b.hash as nat) + string_bytes(b.payload@)
}

/// Encoding of blobs one after the other.
pub open spec fn blobs_bytes(bs: Seq<CacheBlob>) -> Seq<u8>
    decreases bs.len(),
{
    if bs.len() == 0 {
        Seq::empty()
    } else {
        blobs_bytes(bs.drop_last()) + blob_bytes(bs.last())
    }
}

impl CacheBlob {
    /// Number of bytes that `serialize` appends.
    pub fn len(&self) -> (r: usize)
        requires
            self.payload@.len() <= u32::MAX,
            blob_bytes(*self).len() <= usize::MAX,
        ensures
            r == blob_bytes(*self).len(),
    {
        size_of_var(self.hash) + size_of_var(self.payload.len() as u64) + self.payload.len()
    }

    /// Appends the blob.
    pub fn serialize(&self, buf: &mut Vec<u8>)
        requires
            self.payload@.len() <= u32::MAX,
        ensures
            final(buf)@ == old(buf)@ + blob_bytes(*self),
    {
        write_var_u64(buf, self.hash);
        write_bytes(buf, self.payload.as_slice());
        assert(final(buf)@ =~= old(buf)@ + blob_bytes(*self));
    }
}

/// Answers the blobs that the client's cache missed.
pub struct CacheMissResponse {
    pub blobs: Vec<CacheBlob>,
}

/// Identifier of the cache-miss-response packet.
pub const CACHE_MISS_RESPONSE_ID: u32 = 0x88;

impl CacheMissResponse {
    /// Every blob's payload fits a length prefix, and so does the count.
    pub open spec fn spec_fits(&self) -> bool {
        &&& self.blobs@.len() <= u32::MAX
        &&& forall|i: int| 0 <= i < self.blobs@.len() ==> (#[trigger] self.blobs@[i]).payload@.len() <= u32::MAX
    }

    /// Room to reserve: one byte for the count plus each blob's length.
    pub fn serialized_size(&self) -> (r: usize)
        requires
            self.spec_fits(),
            1 + blobs_bytes(self.blobs@).len() <= usize::MAX,
        ensures
            r == 1 + blobs_bytes(self.blobs@).len(),
    {
        let mut total: usize = 1;
        let mut i: usize = 0;
        while i < self.blobs.len()
            invariant
                self.spec_fits(),
                1 + blobs_bytes(self.blobs@).len() <= usize::MAX,
                i <= self.blobs@.len(),
                total == 1 + blobs_bytes(self.blobs@.take(i as int)).len(),
            decreases self.blobs@.len() - i,
        {
            proof {
                assert(self.blobs@.take(i + 1).drop_last() =~= self.blobs@.take(i as int));
                lemma_blobs_prefix(self.blobs@, i + 1);
            }
            total = total + self.blobs[i].len();
            i = i + 1;
        }
        assert(self.blobs@.take(i as int) =~= self.blobs@);
        total
    }

    /// Appends the blob count as a varint, then each blob.
    pub fn serialize(&self, buf: &mut Vec<u8>)
        requires
            self.spec_fits(),
        ensures
            final(buf)@ == old(buf)@ + var_bytes(self.blobs@.len()) + blobs_bytes(self.blobs@),
    {
        write_var_u32(buf, self.blobs.len() as u32);
        let ghost mid = buf@;
        let mut i: usize = 0;
        while i < self.blobs.len()
            invariant
                self.spec_fits(),
                i <= self.blobs@.len(),
                buf@ == mid + blobs_bytes(self.blobs@.take(i as int)),
            decreases self.blobs@.len() - i,
        {
            proof {
                assert(self.blobs@.take(i + 1).drop_last() =~= self.blobs@.take(i as int));
            }
            self.blobs[i].serialize(buf);
            i = i + 1;
            assert(buf@ =~= mid + blobs_bytes(self.blobs@.take(i as int)));
        }
        assert(self.blobs@.take(i as int) =~= self.blobs@);
        assert(buf@ =~= old(buf)@ + var_bytes(self.blobs@.len()) + blobs_bytes(self.blobs@));
    }
}

proof fn lemma_blobs_prefix(bs: Seq<CacheBlob>, n: int)
    requires
        0 <= n <= bs.len(),
    ensures
        blobs_bytes(bs.take(n)).len() <= blobs_bytes(bs).len(),
    decreases bs.len() - n,
{
    if n < bs.len() {
        lemma_blobs_prefix(bs, n + 1);
        assert(bs.take(n + 1).drop_last() =~= bs.take(n));
    } else {
        assert(bs.take(n) =~= bs);
    }
}

} // verus!
