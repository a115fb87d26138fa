//! The byte layout of the tile file: one record of 20 bytes per tile, five
//! little-endian words, with neither header nor count.
//!
//! A record holds the three fractional fields as they go to the file, the
//! bit patterns of IEEE-754 single-precision numbers.

use byteorder::ByteOrder;
use vstd::prelude::*;

verus! {

/// The length of one record.
pub const RECORD_BYTES: usize = 20;

/// A tile as it is written: the cell, then the bit patterns of the two
/// texture coordinates and of the height.
#[derive(Clone, Copy, Debug, PartialEq, Eq, Structural)]
pub struct RawTile {
    pub posx: i32,
    pub posy: i32,
    pub u: u32,
    pub v: u32,
    pub height: u32,
}

/// The four bytes of a 32-bit word, least significant first.
pub open spec fn le_bytes(word: int) -> Seq<u8> {
    seq![
        (word % 0x100) as u8,
        (word / 0x100 % 0x100) as u8,
        (word / 0x1_0000 % 0x100) as u8,
        (word / 0x100_0000 % 0x100) as u8,
    ]
}

/// The unsigned word with the bits of a signed one, in two's complement.
pub open spec fn unsigned_of(n: int) -> int {
    if n < 0 {
        n + 0x1_0000_0000
    } else {
        n
    }
}

/// The bytes of one record.
pub open spec fn record_bytes(tile: RawTile) -> Seq<u8> {
    le_bytes(unsigned_of(tile.posx as int)) + le_bytes(unsigned_of(tile.posy as int)) + le_bytes(
        tile.u as int,
    ) + le_bytes(tile.v as int) + le_bytes(tile.height as int)
}

/// The bytes of all records, one after the other.
pub open spec fn stream_bytes(tiles: Seq<RawTile>) -> Seq<u8>
    decreases tiles.len(),
{
    if tiles.len() == 0 {
        Seq::empty()
    } else {
        stream_bytes(tiles.drop_last()) + record_bytes(tiles.last())
    }
}

/// A stream is 20 bytes for each tile, and the record of tile `i` stands at
/// offset `20 * i`.
pub proof fn lemma_stream_layout(tiles: Seq<RawTile>)
    ensures
        stream_bytes(tiles).len() == RECORD_BYTES * tiles.len(),
        forall|i: int|
            0 <= i < tiles.len() ==> stream_bytes(tiles).subrange(
                RECORD_BYTES * i,
                RECORD_BYTES * i + RECORD_BYTES,
            ) == record_bytes(#[trigger] tiles[i]),
    decreases tiles.len(),
{
    if tiles.len() > 0 {
        let front = tiles.drop_last();
        lemma_stream_layout(front);
        let all = stream_bytes(tiles);
        assert forall|i: int| 0 <= i < tiles.len() implies all.subrange(
            RECORD_BYTES * i,
            RECORD_BYTES * i + RECORD_BYTES,
        ) == record_bytes(#[trigger] tiles[i]) by {
            if i < front.len() {
                assert(front[i] == tiles[i]);
                assert(all.subrange(RECORD_BYTES * i, RECORD_BYTES * i + RECORD_BYTES)
                    =~= stream_bytes(front).subrange(
                    RECORD_BYTES * i,
                    RECORD_BYTES * i + RECORD_BYTES,
                ));
            } else {
                assert(all.subrange(RECORD_BYTES * i, RECORD_BYTES * i + RECORD_BYTES)
                    =~= record_bytes(tiles.last()));
            }
        }
    }
}

/// `byteorder::LittleEndian::write_u32` into a buffer of four bytes: the
/// word's bytes, least significant first.
#[verifier::external_body]
fn le_u32(word: u32) -> (bytes: [u8; 4])
    ensures
        bytes@ == le_bytes(word as int),
{
    let mut buf = [0u8; 4];
    byteorder::LittleEndian::write_u32(&mut buf, word);
    buf
}

/// `byteorder::LittleEndian::write_i32` into a buffer of four bytes: the
/// bytes of the word's two's complement, least significant first.
#[verifier::external_body]
fn le_i32(word: i32) -> (bytes: [u8; 4])
    ensures
        bytes@ == le_bytes(unsigned_of(word as int)),
{
    let mut buf = [0u8; 4];
    byteorder::LittleEndian::write_i32(&mut buf, word);
    buf
}

fn append_word(bytes: &mut Vec<u8>, word: [u8; 4])
    ensures
        final(bytes)@ == old(bytes)@ + word@,
{
    bytes.push(word[0]);
    bytes.push(word[1]);
    bytes.push(word[2]);
    bytes.push(word[3]);
    assert(bytes@ =~= old(bytes)@ + word@);
}

/// The 20 bytes of one tile's record.
pub fn encode_tile(tile: &RawTile) -> (bytes: Vec<u8>)
    ensures
        bytes@ == record_bytes(*tile),
        bytes@.len() == RECORD_BYTES,
{
    let mut bytes: Vec<u8> = Vec::new();
    append_word(&mut bytes, le_i32(tile.posx));
    append_word(&mut bytes, le_i32(tile.posy));
    append_word(&mut bytes, le_u32(tile.u));
    append_word(&mut bytes, le_u32(tile.v));
    append_word(&mut bytes, le_u32(tile.height));
    assert(bytes@ =~= record_bytes(*tile));
    bytes
}

/// The records of all tiles, in their order, as one buffer.
pub fn encode_all(tiles: &Vec<RawTile>) -> (bytes: Vec<u8>)
    ensures
        bytes@ == stream_bytes(tiles@),
        bytes@.len() == RECORD_BYTES * tiles@.len(),
{
    let mut bytes: Vec<u8> = Vec::new();
    let mut i: usize = 0;
    assert(tiles@.subrange(0, 0) =~= Seq::empty());
    while i < tiles.len()
        invariant
            0 <= i <= tiles.len(),
            bytes@ == stream_bytes(tiles@.subrange(0, i as int)),
        decreases tiles.len() - i,
    {
        let record = encode_tile(&tiles[i]);
        let ghost before = bytes@;
        let mut k: usize = 0;
        while k < record.len()
            invariant
                0 <= k <= record.len(),
                bytes@ == before + record@.subrange(0, k as int),
            decreases record.len() - k,
        {
            bytes.push(record[k]);
            k = k + 1;
            assert(bytes@ =~= before + record@.subrange(0, k as int));
        }
        proof {
            assert(record@.subrange(0, record@.len() as int) =~= record@);
            assert(tiles@.subrange(0, i + 1).drop_last() =~= tiles@.subrange(0, i as int));
            assert(tiles@.subrange(0, i + 1).last() == tiles@[i as int]);
        }
        i = i + 1;
    }
    proof {
        assert(tiles@.subrange(0, tiles@.len() as int) =~= tiles@);
        lemma_stream_layout(tiles@);
    }
    bytes
}

} // verus!
