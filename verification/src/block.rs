//! Blocks of records, stored as they are or compressed.

use vstd::prelude::*;
use vstd::utf8::encode_utf8;

use crate::bytes::{
    be_u32, copy_range, from_be_u32, lemma_be_u32_roundtrip, push_all, push_u32, read_u32,
};
use crate::error::StoreError;
use crate::lz77::{compressed, decompressed, Lz77};
use crate::record::{record_bytes, Record};

verus! {

pub const BLOCK_HEADER_LEN: usize = 9;

/// The header that precedes every block.
#[derive(Clone, Copy, PartialEq, Eq, Structural, Debug)]
pub struct BlockHeader {
    pub uncompressed_size: u32,
    pub stored_size: u32,
    /// 0 for a block that is stored as it is, 1 for a compressed one.
    pub compression_flag: u8,
}

/// The bytes of a header.
pub open spec fn header_bytes(h: BlockHeader) -> Seq<u8> {
    be_u32(h.uncompressed_size) + be_u32(h.stored_size) + seq![h.compression_flag]
}

/// The header that nine bytes hold.
pub open spec fn header_from(bytes: Seq<u8>) -> BlockHeader {
    BlockHeader {
        uncompressed_size: from_be_u32(bytes.subrange(0, 4)),
        stored_size: from_be_u32(bytes.subrange(4, 8)),
        compression_flag: bytes[8],
    }
}

/// What is stored of a block that holds `data`.
pub open spec fn stored(data: Seq<u8>, compression: bool) -> Seq<u8> {
    if compression {
        compressed(data)
    } else {
        data
    }
}

/// The header of a block that holds `data`.
pub open spec fn header_for(data: Seq<u8>, compression: bool) -> BlockHeader {
    BlockHeader {
        uncompressed_size: #[verifier::truncate] (data.len() as u32),
        stored_size: #[verifier::truncate] (stored(data, compression).len() as u32),
        compression_flag: if compression {
            1
        } else {
            0
        },
    }
}

/// The bytes of a block that holds `data`.
pub open spec fn block_bytes(data: Seq<u8>, compression: bool) -> Seq<u8> {
    header_bytes(header_for(data, compression)) + stored(data, compression)
}

/// What a block holds whose stored bytes begin at the start of `rest`.
pub open spec fn block_content(rest: Seq<u8>, h: BlockHeader) -> Result<Seq<u8>, StoreError> {
    if h.compression_flag > 1 {
        Err(StoreError::InvalidCompressionFlag(h.compression_flag))
    } else if rest.len() < h.stored_size {
        Err(StoreError::UnexpectedEof)
    } else if h.compression_flag == 0 {
        Ok(rest.take(h.stored_size as int))
    } else {
        Ok(decompressed(rest.take(h.stored_size as int))->0)
    }
}

/// A header comes back from its bytes.
pub proof fn lemma_header_roundtrip(h: BlockHeader)
    ensures
        header_bytes(h).len() == BLOCK_HEADER_LEN,
        header_from(header_bytes(h)) == h,
{
    lemma_be_u32_roundtrip(h.uncompressed_size);
    lemma_be_u32_roundtrip(h.stored_size);
    assert(header_bytes(h).subrange(0, 4) =~= be_u32(h.uncompressed_size));
    assert(header_bytes(h).subrange(4, 8) =~= be_u32(h.stored_size));
}

/// How a block is laid out: how many bytes it holds, how many are stored, a 1 where they are
/// compressed and a 0 where they are stored as they are, and the stored bytes.
pub proof fn lemma_block_layout(data: Seq<u8>, compression: bool)
    requires
        data.len() <= u32::MAX,
        compressed(data).len() <= u32::MAX,
    ensures
        block_bytes(data, compression) == if compression {
            be_u32(data.len() as u32) + be_u32(compressed(data).len() as u32) + seq![1u8]
                + compressed(data)
        } else {
            be_u32(data.len() as u32) + be_u32(data.len() as u32) + seq![0u8] + data
        },
{
}

/// A block is refused where its flag is unknown, or where its stored bytes are not all there.
pub proof fn lemma_block_refused(rest: Seq<u8>, h: BlockHeader)
    ensures
        h.compression_flag > 1 ==> block_content(rest, h) == Err::<Seq<u8>, StoreError>(
            StoreError::InvalidCompressionFlag(h.compression_flag),
        ),
        h.compression_flag <= 1 && rest.len() < h.stored_size ==> block_content(rest, h) == Err::<
            Seq<u8>,
            StoreError,
        >(StoreError::UnexpectedEof),
        h.compression_flag <= 1 && rest.len() >= h.stored_size ==> block_content(rest, h) is Ok,
{
}

/// What was put into a block is read back from it, compressed or not, whatever
/// follows the block.
pub proof fn lemma_block_roundtrip(data: Seq<u8>, compression: bool, tail: Seq<u8>)
    requires
        stored(data, compression).len() <= u32::MAX,
    ensures
        ({
            let bytes = block_bytes(data, compression) + tail;
            let h = header_from(bytes.take(BLOCK_HEADER_LEN as int));
            &&& h == header_for(data, compression)
            &&& block_content(bytes.skip(BLOCK_HEADER_LEN as int), h) == Ok::<Seq<u8>, StoreError>(
                data,
            )
        }),
{
    let h = header_for(data, compression);
    let s = stored(data, compression);
    let bytes = block_bytes(data, compression) + tail;
    lemma_header_roundtrip(h);
    assert(bytes.take(9) =~= header_bytes(h));
    assert(bytes.skip(9) =~= s + tail);
    assert((s + tail).take(s.len() as int) =~= s);
    if compression {
        crate::lz77::lemma_decompress_compressed(data);
    }
}

impl BlockHeader {
    /// The nine bytes of the header, integers big-endian.
    pub fn to_bytes(&self) -> (r: [u8; 9])
        ensures
            r@ == header_bytes(*self),
    {
        let mut buf: Vec<u8> = Vec::new();
        push_u32(&mut buf, self.uncompressed_size);
        push_u32(&mut buf, self.stored_size);
        buf.push(self.compression_flag);
        let r: [u8; 9] = [
            buf[0],
            buf[1],
            buf[2],
            buf[3],
            buf[4],
            buf[5],
            buf[6],
            buf[7],
            buf[8],
        ];
        assert(r@ =~= buf@);
        assert(buf@ =~= header_bytes(*self));
        r
    }

    /// The header that nine bytes hold.
    pub fn from_bytes(bytes: &[u8; 9]) -> (h: Self)
        ensures
            h == header_from(bytes@),
    {
        let s: &[u8] = bytes.as_slice();
        BlockHeader {
            uncompressed_size: read_u32(s, 0),
            stored_size: read_u32(s, 4),
            compression_flag: s[8],
        }
    }
}

/// Gathers records into blocks.
pub struct BlockWriter {
    target_block_size: usize,
    compression_enabled: bool,
    buffer: Vec<u8>,
}

impl BlockWriter {
    /// The size that a block is meant to reach.
    pub closed spec fn target(&self) -> usize {
        self.target_block_size
    }

    /// Whether blocks are compressed.
    pub closed spec fn compression(&self) -> bool {
        self.compression_enabled
    }

    /// The bytes of the records that were added since the last block.
    pub closed spec fn pending(&self) -> Seq<u8> {
        self.buffer@
    }

    /// A writer with nothing in its current block.
    pub fn new(target_block_size: usize, compression_enabled: bool) -> (w: Self)
        ensures
            w.target() == target_block_size,
            w.compression() == compression_enabled,
            w.pending() == Seq::<u8>::empty(),
    {
        BlockWriter { target_block_size, compression_enabled, buffer: Vec::new() }
    }

    /// Adds a record to the current block. Where the block would grow beyond its
    /// target, it is finished first and handed back.
    pub fn add_record(&mut self, record: &Record) -> (r: Result<Option<Vec<u8>>, StoreError>)
        ensures
            final(self).target() == old(self).target(),
            final(self).compression() == old(self).compression(),
            ({
                let data = record_bytes(
                    record.header,
                    encode_utf8(record.key@),
                    encode_utf8(record.value@),
                );
                let full = data.len() + old(self).pending().len() > old(self).target();
                if full && old(self).pending().len() > 0 {
                    &&& r matches Ok(Some(block))
                    &&& block@ == block_bytes(old(self).pending(), old(self).compression())
                    &&& final(self).pending() == data
                } else {
                    &&& r matches Ok(None)
                    &&& final(self).pending() == old(self).pending() + data
                }
            }),
            // A block is handed back only for a record that does not fit into it, and a block
            // grows beyond its target only by a record that does so by itself.
            r matches Ok(Some(_)) ==> old(self).pending().len() + 21 + encode_utf8(
                record.key@,
            ).len() + encode_utf8(record.value@).len() + (if record.header.expiry_ms is Some {
                8int
            } else {
                0int
            }) > old(self).target(),
            old(self).pending().len() <= old(self).target() < final(self).pending().len()
                ==> final(self).pending().len() == 21 + encode_utf8(record.key@).len()
                + encode_utf8(record.value@).len() + (if record.header.expiry_ms is Some {
                8int
            } else {
                0int
            }),
    {
        let data = record.to_be_bytes();
        let mut flushed: Option<Vec<u8>> = None;
        if self.buffer.len() > self.target_block_size || data.len() > self.target_block_size
            - self.buffer.len() {
            flushed = self.flush_pending();
        }
        push_all(&mut self.buffer, data.as_slice());
        assert(Seq::<u8>::empty() + data@ =~= data@);
        Ok(flushed)
    }

    fn flush_pending(&mut self) -> (r: Option<Vec<u8>>)
        ensures
            final(self).target() == old(self).target(),
            final(self).compression() == old(self).compression(),
            final(self).pending() == Seq::<u8>::empty(),
            match r {
                Some(block) => old(self).pending().len() > 0 && block@ == block_bytes(
                    old(self).pending(),
                    old(self).compression(),
                ),
                None => old(self).pending().len() == 0,
            },
    {
        if self.buffer.len() == 0 {
            assert(self.pending() =~= Seq::<u8>::empty());
            return None;
        }
        let mut buf: Vec<u8> = Vec::new();
        if self.compression_enabled {
            let packed = Lz77::encode(self.buffer.as_slice());
            let header = BlockHeader {
                uncompressed_size: #[verifier::truncate] (self.buffer.len() as u32),
                stored_size: #[verifier::truncate] (packed.len() as u32),
                compression_flag: 1,
            };
            push_all(&mut buf, header.to_bytes().as_slice());
            push_all(&mut buf, packed.as_slice());
        } else {
            let header = BlockHeader {
                uncompressed_size: #[verifier::truncate] (self.buffer.len() as u32),
                stored_size: #[verifier::truncate] (self.buffer.len() as u32),
                compression_flag: 0,
            };
            push_all(&mut buf, header.to_bytes().as_slice());
            push_all(&mut buf, self.buffer.as_slice());
        }
        assert(buf@ =~= block_bytes(self.buffer@, self.compression_enabled));
        self.buffer.clear();
        Some(buf)
    }

    /// Finishes the current block, if anything is in it.
    pub fn flush(&mut self) -> (r: Result<Option<Vec<u8>>, StoreError>)
        ensures
            final(self).target() == old(self).target(),
            final(self).compression() == old(self).compression(),
            final(self).pending() == Seq::<u8>::empty(),
            match r {
                Ok(Some(block)) => old(self).pending().len() > 0 && block@ == block_bytes(
                    old(self).pending(),
                    old(self).compression(),
                ),
                Ok(None) => old(self).pending().len() == 0,
                Err(_) => false,
            },
    {
        Ok(self.flush_pending())
    }
}

/// Reads blocks back.
pub struct BlockReader;

impl BlockReader {
    /// Reads the content of the block whose header was read before `pos`.
    pub fn read_block(data: &[u8], pos: usize, header: &BlockHeader) -> (r: Result<
        Vec<u8>,
        StoreError,
    >)
        requires
            pos <= data@.len(),
            header.compression_flag == 1 && pos + header.stored_size <= data@.len()
                ==> decompressed(data@.subrange(pos as int, pos + header.stored_size)) is Some,
        ensures
            match r {
                Ok(v) => block_content(data@.skip(pos as int), *header) == Ok::<
                    Seq<u8>,
                    StoreError,
                >(v@),
                Err(e) => block_content(data@.skip(pos as int), *header) == Err::<
                    Seq<u8>,
                    StoreError,
                >(e),
            },
    {
        if header.compression_flag > 1 {
            return Err(StoreError::InvalidCompressionFlag(header.compression_flag));
        }
        if ((data.len() - pos) as u64) < header.stored_size as u64 {
            return Err(StoreError::UnexpectedEof);
        }
        let n = header.stored_size as usize;
        let buf = copy_range(data, pos, pos + n);
        assert(data@.skip(pos as int).take(n as int) =~= data@.subrange(pos as int, pos + n));
        if header.compression_flag == 0 {
            Ok(buf)
        } else {
            Ok(Lz77::decode(buf.as_slice()))
        }
    }
}

} // verus!
