//! The output record of a chunk or a parent node: everything needed to
//! compress once more, either into a chaining value or into a stream of
//! extendable output bytes.
use vstd::prelude::*;

use crate::compress::{compress, compress_cv, compress_extended, compress_xof, ROOT, PARENT};
use crate::words::{bytes_of_words, copy_words, append_words, word_byte_at};

verus! {

/// The mathematical content of an [`Output`].
pub struct OutputRec {
    pub cv: Seq<u32>,
    pub block: Seq<u32>,
    pub offset: u64,
    pub block_len: u32,
    pub flags: u32,
}

impl OutputRec {
    /// An eight-word input chaining value and a sixteen-word block.
    pub open spec fn wf(self) -> bool {
        self.cv.len() == 8 && self.block.len() == 16
    }
}

/// The chaining value an output record produces: one more compression.
pub open spec fn output_cv(o: OutputRec) -> Seq<u32> {
    compress_cv(o.cv, o.block, o.offset, o.block_len, o.flags)
}

/// A parent node's output record: the two child chaining values form the
/// block, the key is the input chaining value, the offset is zero.
pub open spec fn parent_rec(left: Seq<u32>, right: Seq<u32>, key: Seq<u32>, flags: u32) -> OutputRec {
    OutputRec { cv: key, block: left + right, offset: 0, block_len: 64, flags: PARENT | flags }
}

/// The chaining value of a parent over two child chaining values.
pub open spec fn parent_cv(left: Seq<u32>, right: Seq<u32>, key: Seq<u32>, flags: u32) -> Seq<u32> {
    output_cv(parent_rec(left, right, key, flags))
}

/// The 64 bytes of extendable output block `i`: one extended compression
/// with the root flag set and the offset advanced by 64 per block.
pub open spec fn xof_block(o: OutputRec, i: int) -> Seq<u8> {
    bytes_of_words(compress_xof(o.cv, o.block, (o.offset + 64 * i) as u64, o.block_len, o.flags | ROOT))
}

/// The first `n` bytes of the extendable output stream of `o`.
pub open spec fn xof_bytes(o: OutputRec, n: nat) -> Seq<u8> {
    Seq::new(n, |i: int| xof_block(o, i / 64)[i % 64])
}

/// Any shorter extendable output is a prefix of any longer one drawn from
/// the same record: the stream is fixed, only its length varies.
pub proof fn lemma_xof_prefix(o: OutputRec, n1: nat, n2: nat)
    requires
        n1 <= n2,
    ensures
        xof_bytes(o, n1) == xof_bytes(o, n2).subrange(0, n1 as int),
{
    assert(xof_bytes(o, n1) =~= xof_bytes(o, n2).subrange(0, n1 as int));
}

/// The output of a chunk or parent node, which can produce either an
/// eight-word chaining value or any number of root output bytes.
pub struct Output {
    pub input_chaining_value: Vec<u32>,
    pub block_words: Vec<u32>,
    pub offset: u64,
    pub block_len: u32,
    pub flags: u32,
}

impl View for Output {
    type V = OutputRec;

    open spec fn view(&self) -> OutputRec {
        OutputRec {
            cv: self.input_chaining_value@,
            block: self.block_words@,
            offset: self.offset,
            block_len: self.block_len,
            flags: self.flags,
        }
    }
}

impl Output {
    /// Compress once, producing this node's chaining value.
    pub fn chaining_value(&self) -> (cv: Vec<u32>)
        requires
            self@.wf(),
        ensures
            cv@ == output_cv(self@),
            cv@.len() == 8,
    {
        compress(&self.input_chaining_value, &self.block_words, self.offset, self.block_len, self.flags)
    }

    /// Emit `out_len` bytes of root output: repeated extended compressions
    /// with the root flag, 64 bytes per block, the last block truncated.
    pub fn root_output(&self, out_len: usize) -> (out: Vec<u8>)
        requires
            self@.wf(),
            self@.offset as nat + out_len as nat <= u64::MAX as nat + 1,
        ensures
            out@ == xof_bytes(self@, out_len as nat),
            out@.len() == out_len,
    {
        let mut out: Vec<u8> = Vec::new();
        let mut i: usize = 0;
        while out.len() < out_len
            invariant
                self@.wf(),
                self@.offset as nat + out_len as nat <= u64::MAX as nat + 1,
                out@.len() <= out_len,
                out@.len() == 64 * i || out@.len() == out_len,
                forall|k: int| 0 <= k < out@.len() ==> out@[k] == xof_block(self@, k / 64)[k % 64],
            decreases out_len - out@.len(),
        {
            let off: u64 = self.offset + 64 * (i as u64);
            let words = compress_extended(
                &self.input_chaining_value,
                &self.block_words,
                off,
                self.block_len,
                self.flags | ROOT,
            );
            assert(bytes_of_words(words@) == xof_block(self@, i as int));
            let remaining = out_len - out.len();
            let take = if remaining < 64 {
                remaining
            } else {
                64
            };
            let ghost base = out@.len() as int;
            let mut j: usize = 0;
            while j < take
                invariant
                    words@.len() == 16,
                    j <= take,
                    take <= 64,
                    out@.len() == base + j,
                    base + take <= out_len,
                    base == 64 * i,
                    forall|k: int| 0 <= k < base ==> out@[k] == xof_block(self@, k / 64)[k % 64],
                    forall|k: int| 0 <= k < j ==> out@[base + k] == bytes_of_words(words@)[k],
                decreases take - j,
            {
                let w = words[j / 4];
                let b = word_byte_at(w, j % 4);
                assert(b == bytes_of_words(words@)[j as int]);
                out.push(b);
                j = j + 1;
            }
            assert forall|k: int| base <= k < base + take implies out@[k] == xof_block(self@, k / 64)[k % 64] by {
                assert(out@[k] == bytes_of_words(words@)[k - base]);
                assert(k / 64 == i && k % 64 == k - base) by (nonlinear_arith)
                    requires
                        base == 64 * i,
                        base <= k < base + take,
                        take <= 64;
            }
            i = i + 1;
        }
        assert(out@ =~= xof_bytes(self@, out_len as nat));
        out
    }
}

/// Build the output record of a parent node from its two child chaining
/// values, under the given key and mode flags.
pub fn parent_output(left: &Vec<u32>, right: &Vec<u32>, key: &Vec<u32>, flags: u32) -> (o: Output)
    requires
        left@.len() == 8,
        right@.len() == 8,
        key@.len() == 8,
    ensures
        o@ == parent_rec(left@, right@, key@, flags),
        o@.wf(),
{
    let mut block = copy_words(left);
    append_words(&mut block, right);
    Output {
        input_chaining_value: copy_words(key),
        block_words: block,
        offset: 0,
        block_len: 64,
        flags: PARENT | flags,
    }
}

} // verus!
