//! The chunk state machine: streams up to [`CHUNK_LEN`] bytes through the
//! compression function, 64 bytes per block, and records enough to emit
//! the chunk's output at finalization.
use vstd::prelude::*;

use crate::compress::{compress, compress_cv, BLOCK_LEN, CHUNK_LEN, CHUNK_START, CHUNK_END};
use crate::output::{Output, OutputRec};
use crate::words::{copy_words, words_of_bytes, words_from_byte_vec, zero_block};

verus! {

/// How many blocks of `l` absorbed bytes have been compressed: all the
/// full blocks except a final one, which is held for finalization.
pub open spec fn blocks_of(l: nat) -> nat {
    if l == 0 {
        0
    } else {
        ((l - 1) / 64) as nat
    }
}

/// How many absorbed bytes sit in the block buffer: the rest of `l`.
pub open spec fn fill_of(l: nat) -> nat {
    (l - 64 * blocks_of(l)) as nat
}

/// The chaining value after compressing all blocks of `head`, whose
/// length is a multiple of 64.  The first block carries the start flag.
pub open spec fn chain_cv(key: Seq<u32>, offset: u64, flags: u32, head: Seq<u8>) -> Seq<u32>
    decreases head.len(),
{
    if head.len() < 64 {
        key
    } else {
        let l = head.len() as int;
        compress_cv(
            chain_cv(key, offset, flags, head.subrange(0, l - 64)),
            words_of_bytes(head.subrange(l - 64, l)),
            offset,
            64,
            flags | (if l == 64 { CHUNK_START } else { 0 }),
        )
    }
}

/// `tail` zero-padded to a full 64-byte block.
pub open spec fn pad_block(tail: Seq<u8>) -> Seq<u8> {
    tail + Seq::new((64 - tail.len()) as nat, |i: int| 0u8)
}

/// The output record of a chunk that absorbed `data` (at most 2048
/// bytes): the compressed-blocks chaining value, the padded final block,
/// the real byte count of that block, and the end-of-chunk flags.
pub open spec fn chunk_output_rec(key: Seq<u32>, offset: u64, flags: u32, data: Seq<u8>) -> OutputRec {
    let nb = blocks_of(data.len()) as int;
    OutputRec {
        cv: chain_cv(key, offset, flags, data.subrange(0, 64 * nb)),
        block: words_of_bytes(pad_block(data.subrange(64 * nb, data.len() as int))),
        offset: offset,
        block_len: fill_of(data.len()) as u32,
        flags: flags | (if nb == 0 { CHUNK_START } else { 0 }) | CHUNK_END,
    }
}

/// Streams one chunk's bytes into 64-byte blocks, compressing each block
/// as soon as a later byte arrives, so the final block is always held.
pub struct ChunkState {
    pub chaining_value: Vec<u32>,
    pub offset: u64,
    pub block: Vec<u8>,
    pub block_len: u8,
    pub blocks_compressed: u8,
    pub flags: u32,
    /// The key this chunk started from.
    pub key: Ghost<Seq<u32>>,
    /// The bytes this chunk has absorbed, the model of all other fields.
    pub absorbed: Ghost<Seq<u8>>,
}

impl ChunkState {
    /// Every concrete field is determined by the absorbed bytes.
    pub open spec fn wf(self) -> bool {
        let l = self.absorbed@.len();
        &&& self.key@.len() == 8
        &&& l <= CHUNK_LEN
        &&& self.blocks_compressed as nat == blocks_of(l)
        &&& self.block_len as nat == fill_of(l)
        &&& self.block@ == pad_block(self.absorbed@.subrange(64 * blocks_of(l) as int, l as int))
        &&& self.chaining_value@ == chain_cv(self.key@, self.offset, self.flags, self.absorbed@.subrange(0, 64 * blocks_of(l) as int))
        &&& self.chaining_value@.len() == 8
    }

    /// A fresh chunk at `offset`, keyed with `key`, no bytes absorbed.
    pub fn new(key: &Vec<u32>, offset: u64, flags: u32) -> (s: Self)
        requires
            key@.len() == 8,
        ensures
            s.wf(),
            s.key@ == key@,
            s.absorbed@ == Seq::<u8>::empty(),
            s.offset == offset,
            s.flags == flags,
    {
        let s = ChunkState {
            chaining_value: copy_words(key),
            offset,
            block: zero_block(),
            block_len: 0,
            blocks_compressed: 0,
            flags,
            key: Ghost(key@),
            absorbed: Ghost(Seq::empty()),
        };
        proof {
            assert(s.absorbed@.subrange(0, 0) =~= Seq::<u8>::empty());
            assert(s.block@ =~= pad_block(s.absorbed@.subrange(0, 0)));
        }
        s
    }

    /// The number of bytes absorbed so far.
    pub fn len(&self) -> (n: usize)
        requires
            self.wf(),
        ensures
            n == self.absorbed@.len(),
    {
        proof {
            let l = self.absorbed@.len();
            if l > 0 {
                assert(64 * ((l - 1) as int / 64) <= l - 1) by (nonlinear_arith);
            }
        }
        BLOCK_LEN * self.blocks_compressed as usize + self.block_len as usize
    }

    /// The start flag if no block of this chunk has been compressed yet.
    pub fn start_flag(&self) -> (f: u32)
        requires
            self.wf(),
        ensures
            f == (if blocks_of(self.absorbed@.len()) == 0 { CHUNK_START } else { 0u32 }),
    {
        if self.blocks_compressed == 0 {
            CHUNK_START
        } else {
            0
        }
    }

    /// The state between a block compression and the next byte: the
    /// absorbed bytes split exactly into compressed blocks and the buffer.
    pub open spec fn mid_wf(self) -> bool {
        let l = self.absorbed@.len();
        let fill = self.block_len as int;
        &&& self.key@.len() == 8
        &&& l <= CHUNK_LEN
        &&& fill <= 64
        &&& fill <= l
        &&& 64 * (self.blocks_compressed as int) == l - fill
        &&& self.block@ == pad_block(self.absorbed@.subrange(l - fill, l as int))
        &&& self.chaining_value@ == chain_cv(self.key@, self.offset, self.flags, self.absorbed@.subrange(0, l - fill))
        &&& self.chaining_value@.len() == 8
    }

    proof fn lemma_wf_mid(self)
        requires
            self.wf(),
        ensures
            self.mid_wf(),
    {
        let l = self.absorbed@.len();
        if l > 0 {
            assert(64 * blocks_of(l) <= l - 1) by (nonlinear_arith)
                requires
                    blocks_of(l) == (l - 1) as int / 64;
        }
    }

    /// Compress the full buffered block into the chaining value and reset
    /// the buffer.  The absorbed bytes do not change; afterwards every one
    /// of them is compressed.
    fn compress_block(&mut self)
        requires
            old(self).mid_wf(),
            old(self).block_len == 64,
        ensures
            final(self).mid_wf(),
            final(self).block_len == 0,
            final(self).absorbed == old(self).absorbed,
            final(self).key == old(self).key,
            final(self).offset == old(self).offset,
            final(self).flags == old(self).flags,
            final(self).blocks_compressed as int == old(self).blocks_compressed as int + 1,
    {
        let ghost l0 = self.absorbed@.len();
        let ghost nb0 = self.blocks_compressed as int;
        proof {
            assert(pad_block(self.absorbed@.subrange(l0 - 64, l0 as int)) =~= self.absorbed@.subrange(l0 - 64, l0 as int));
        }
        let block_words = words_from_byte_vec(&self.block);
        let start = if self.blocks_compressed == 0 {
            CHUNK_START
        } else {
            0
        };
        let block_flags = self.flags | start;
        let new_cv = compress(&self.chaining_value, &block_words, self.offset, BLOCK_LEN as u32, block_flags);
        self.chaining_value = new_cv;
        self.blocks_compressed = self.blocks_compressed + 1;
        self.block = zero_block();
        self.block_len = 0;
        proof {
            let whole = self.absorbed@.subrange(0, l0 as int);
            assert(whole =~= self.absorbed@);
            assert(whole.subrange(0, l0 - 64) =~= self.absorbed@.subrange(0, l0 - 64));
            assert(whole.subrange(l0 - 64, l0 as int) =~= self.absorbed@.subrange(l0 - 64, l0 as int));
            assert(nb0 == 0 <==> l0 == 64);
            assert(self.chaining_value@ == chain_cv(self.key@, self.offset, self.flags, self.absorbed@));
            assert(pad_block(self.absorbed@.subrange(l0 as int, l0 as int)) =~= Seq::new(64, |i: int| 0u8));
        }
    }

    /// Copy `take` bytes from `input[pos..]` into the buffer.  The buffer
    /// must have room and at least one byte must arrive, so the result is
    /// again a well-formed chunk state.
    fn fill_buffer(&mut self, input: &[u8], pos: usize, take: usize)
        requires
            old(self).mid_wf(),
            1 <= take,
            old(self).block_len + take <= 64,
            pos + take <= input@.len(),
            old(self).absorbed@.len() + take <= CHUNK_LEN,
        ensures
            final(self).wf(),
            final(self).absorbed@ == old(self).absorbed@ + input@.subrange(pos as int, pos + take),
            final(self).key == old(self).key,
            final(self).offset == old(self).offset,
            final(self).flags == old(self).flags,
    {
        let ilen = input.len();
        let ghost fill0 = self.block_len as int;
        let ghost l1 = self.absorbed@.len();
        let ghost base = l1 - fill0;
        let ghost entry_block = self.block@;
        let ghost tail0 = self.absorbed@.subrange(base, l1 as int);
        let ghost target = pad_block(tail0 + input@.subrange(pos as int, pos + take));
        let mut k: usize = 0;
        while k < take
            invariant
                k <= take,
                pos + take <= input@.len(),
                input@.len() <= usize::MAX,
                fill0 + take <= 64,
                self.key == old(self).key,
                self.offset == old(self).offset,
                self.flags == old(self).flags,
                self.absorbed == old(self).absorbed,
                self.blocks_compressed == old(self).blocks_compressed,
                self.chaining_value == old(self).chaining_value,
                self.block_len == old(self).block_len,
                self.block_len as int == fill0,
                self.block@.len() == 64,
                tail0.len() == fill0,
                target.len() == 64,
                entry_block == pad_block(tail0),
                target == pad_block(tail0 + input@.subrange(pos as int, pos + take)),
                forall|idx: int| 0 <= idx < 64 ==> self.block@[idx] == (if idx < fill0 + k { target[idx] } else { entry_block[idx] }),
            decreases take - k,
        {
            assert(target[fill0 + k as int] == input@[pos + k as int]);
            self.block.set(self.block_len as usize + k, input[pos + k]);
            k = k + 1;
        }
        let ghost absorbed0 = self.absorbed@;
        self.block_len = self.block_len + take as u8;
        proof {
            assert(self.block@ =~= target);
        }
        self.absorbed = Ghost(self.absorbed@ + input@.subrange(pos as int, pos + take));
        proof {
            let l2 = self.absorbed@.len();
            let nb = self.blocks_compressed as int;
            assert(l2 == base + fill0 + take);
            assert(blocks_of(l2) == nb && fill_of(l2) == fill0 + take) by (nonlinear_arith)
                requires
                    base == 64 * nb,
                    l2 == base + fill0 + take,
                    1 <= fill0 + take <= 64,
                    blocks_of(l2) == (l2 - 1) as int / 64,
                    fill_of(l2) == l2 - 64 * blocks_of(l2);
            assert(self.absorbed@.subrange(0, base) =~= absorbed0.subrange(0, base));
            assert(self.absorbed@.subrange(base, l2 as int) =~= tail0 + input@.subrange(pos as int, pos + take));
        }
    }

    /// The chunk's output record: the buffered block, zero-padded, with
    /// its real byte count and the end-of-chunk flags.
    pub fn output(&self) -> (o: Output)
        requires
            self.wf(),
        ensures
            o@ == chunk_output_rec(self.key@, self.offset, self.flags, self.absorbed@),
            o@.wf(),
    {
        let block_words = words_from_byte_vec(&self.block);
        let block_flags = self.flags | self.start_flag() | CHUNK_END;
        Output {
            input_chaining_value: copy_words(&self.chaining_value),
            block_words,
            offset: self.offset,
            block_len: self.block_len as u32,
            flags: block_flags,
        }
    }

    /// One absorption step: compress the buffer if it is full, then copy
    /// as many new bytes as it can hold.
    fn absorb_step(&mut self, input: &[u8], pos: usize, to: usize) -> (newpos: usize)
        requires
            old(self).wf(),
            pos < to <= input@.len(),
            old(self).absorbed@.len() + (to - pos) <= CHUNK_LEN,
        ensures
            final(self).wf(),
            pos < newpos <= to,
            final(self).absorbed@ == old(self).absorbed@ + input@.subrange(pos as int, newpos as int),
            final(self).key == old(self).key,
            final(self).offset == old(self).offset,
            final(self).flags == old(self).flags,
    {
        proof {
            self.lemma_wf_mid();
        }
        if self.block_len as usize == BLOCK_LEN {
            self.compress_block();
        }
        let want = BLOCK_LEN - self.block_len as usize;
        let rem = to - pos;
        let take = if want < rem {
            want
        } else {
            rem
        };
        self.fill_buffer(input, pos, take);
        pos + take
    }

    /// Absorb `input[from..to]`, compressing each full block once a byte
    /// beyond it arrives.
    pub fn update(&mut self, input: &[u8], from: usize, to: usize)
        requires
            old(self).wf(),
            from <= to <= input@.len(),
            old(self).absorbed@.len() + (to - from) <= CHUNK_LEN,
        ensures
            final(self).wf(),
            final(self).absorbed@ == old(self).absorbed@ + input@.subrange(from as int, to as int),
            final(self).key == old(self).key,
            final(self).offset == old(self).offset,
            final(self).flags == old(self).flags,
    {
        let mut pos = from;
        while pos < to
            invariant
                self.wf(),
                from <= pos <= to <= input@.len(),
                self.absorbed@.len() + (to - pos) <= CHUNK_LEN,
                self.absorbed@ == old(self).absorbed@ + input@.subrange(from as int, pos as int),
                self.key == old(self).key,
                self.offset == old(self).offset,
                self.flags == old(self).flags,
            decreases to - pos,
        {
            let ghost before = self.absorbed@;
            pos = self.absorb_step(input, pos, to);
            proof {
                assert(self.absorbed@ =~= old(self).absorbed@ + input@.subrange(from as int, pos as int));
            }
        }
        proof {
            assert(self.absorbed@ =~= old(self).absorbed@ + input@.subrange(from as int, to as int));
        }
    }
}

} // verus!
