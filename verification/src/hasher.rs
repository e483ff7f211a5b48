//! The incremental hasher: routes input bytes into the current chunk,
//! promotes completed chunk chaining values onto the subtree stack, and
//! merges subtrees so that the stack always holds one chaining value per
//! set bit of the completed-chunk count.
use vstd::prelude::*;

use crate::chunk::ChunkState;
use crate::compress::{iv, iv_words, CHUNK_LEN, KEY_LEN, OUT_LEN, KEYED_HASH, DERIVE_KEY};
use crate::output::{parent_cv, parent_output};
use crate::tree::{
    good_stack, hash_bytes, node_cv, node_output, popcount, two_pow, lobit,
    lemma_good_stack_last, lemma_good_stack_len, lemma_good_stack_push, lemma_node_parent,
    lemma_popcount_pos, lemma_popcount_add_clear, lemma_popcount_add_set,
    lemma_bit_parity, lemma_lobit, lemma_lobit_min, lemma_lobit_unique,
    lemma_two_pow_pos, lemma_two_pow_increases,
};
use crate::words::{copy_words, words_of_bytes, words_from_byte_vec};

verus! {

/// The number of chunks that have been closed and pushed to the stack:
/// the last chunk boundary strictly before byte `t`, since a full chunk
/// is closed only when a byte beyond it arrives.
pub open spec fn complete_chunks(t: nat) -> nat {
    if t == 0 {
        0
    } else {
        ((t - 1) / 2048) as nat
    }
}

/// The word sequences held in a stack of word vectors, bottom up.
pub open spec fn stack_view(s: Seq<Vec<u32>>) -> Seq<Seq<u32>> {
    Seq::new(s.len(), |i: int| s[i]@)
}

/// The number of set bits of a machine word.
fn popcount64(x: u64) -> (r: u64)
    ensures
        r == popcount(x as nat),
{
    let mut v = x;
    let mut r: u64 = 0;
    proof {
        crate::tree::lemma_popcount_le(x as nat);
    }
    while v > 0
        invariant
            r + popcount(v as nat) == popcount(x as nat),
            popcount(x as nat) <= x,
        decreases v,
    {
        r = r + v % 2;
        v = v / 2;
    }
    r
}

/// An incremental hasher that can absorb any number of writes and emit
/// output at any moment.  Its whole behaviour is a function of the key,
/// the mode flags, and the bytes absorbed so far.
pub struct Hasher {
    pub chunk_state: ChunkState,
    pub key: Vec<u32>,
    pub subtree_stack: Vec<Vec<u32>>,
    /// Every byte absorbed so far, the model of the whole state.
    pub absorbed: Ghost<Seq<u8>>,
}

impl Hasher {
    /// The key words this hasher was constructed with.
    pub open spec fn key_words(self) -> Seq<u32> {
        self.key@
    }

    /// The mode flags: zero, keyed hashing, or key derivation.
    pub open spec fn mode_flags(self) -> u32 {
        self.chunk_state.flags
    }

    /// The bytes absorbed so far.
    pub open spec fn absorbed_bytes(self) -> Seq<u8> {
        self.absorbed@
    }

    /// The completed chunks are covered by the subtree stack, the rest
    /// by the current chunk state; every concrete field is a function of
    /// the key, the flags, and the absorbed bytes.
    pub open spec fn wf(self) -> bool {
        let t = self.absorbed@.len();
        let n = complete_chunks(t);
        &&& self.key@.len() == 8
        &&& self.chunk_state.wf()
        &&& self.chunk_state.key@ == self.key@
        &&& self.chunk_state.offset as nat == n * 2048
        &&& self.chunk_state.absorbed@ == self.absorbed@.subrange((n * 2048) as int, t as int)
        &&& good_stack(
            stack_view(self.subtree_stack@),
            self.key@,
            self.chunk_state.flags,
            0,
            self.absorbed@.subrange(0, (n * 2048) as int),
        )
        &&& t <= u64::MAX
    }

    fn new_internal(key: &Vec<u32>, flags: u32) -> (h: Self)
        requires
            key@.len() == 8,
        ensures
            h.wf(),
            h.key_words() == key@,
            h.mode_flags() == flags,
            h.absorbed_bytes() == Seq::<u8>::empty(),
    {
        let h = Hasher {
            chunk_state: ChunkState::new(key, 0, flags),
            key: copy_words(key),
            subtree_stack: Vec::new(),
            absorbed: Ghost(Seq::empty()),
        };
        proof {
            assert(h.absorbed@.subrange(0, 0) =~= Seq::<u8>::empty());
            assert(h.absorbed@.subrange(0, 0) =~= h.chunk_state.absorbed@);
            assert(stack_view(h.subtree_stack@).len() == 0);
        }
        h
    }

    /// A hasher for the default unkeyed mode: the key is the fixed
    /// initialization constants and no mode flag is set.
    pub fn new() -> (h: Self)
        ensures
            h.wf(),
            h.key_words() == iv(),
            h.mode_flags() == 0,
            h.absorbed_bytes() == Seq::<u8>::empty(),
    {
        let key = iv_words();
        Self::new_internal(&key, 0)
    }

    /// A hasher for the keyed mode: the 32-byte key is read as eight
    /// little-endian words.
    pub fn new_keyed(key: &[u8; KEY_LEN]) -> (h: Self)
        ensures
            h.wf(),
            h.key_words() == words_of_bytes(key@),
            h.mode_flags() == KEYED_HASH,
            h.absorbed_bytes() == Seq::<u8>::empty(),
    {
        let key_words = key_bytes_to_words(key);
        Self::new_internal(&key_words, KEYED_HASH)
    }

    /// A hasher for the key-derivation mode.  The caller obtains the
    /// 32-byte context key by hashing a context string beforehand.
    pub fn new_derive_key(key: &[u8; KEY_LEN]) -> (h: Self)
        ensures
            h.wf(),
            h.key_words() == words_of_bytes(key@),
            h.mode_flags() == DERIVE_KEY,
            h.absorbed_bytes() == Seq::<u8>::empty(),
    {
        let key_words = key_bytes_to_words(key);
        Self::new_internal(&key_words, DERIVE_KEY)
    }

    /// Pop the top two subtree chaining values off the stack, compress
    /// them into a parent chaining value, and put that on top.
    fn merge_two_subtrees(&mut self)
        requires
            old(self).key@.len() == 8,
            old(self).subtree_stack@.len() >= 2,
            stack_view(old(self).subtree_stack@).last().len() == 8,
            stack_view(old(self).subtree_stack@)[old(self).subtree_stack@.len() - 2].len() == 8,
        ensures
            final(self).key == old(self).key,
            final(self).chunk_state == old(self).chunk_state,
            final(self).absorbed == old(self).absorbed,
            stack_view(final(self).subtree_stack@) == stack_view(old(self).subtree_stack@).drop_last().drop_last().push(
                parent_cv(
                    stack_view(old(self).subtree_stack@)[old(self).subtree_stack@.len() - 2],
                    stack_view(old(self).subtree_stack@).last(),
                    old(self).key@,
                    old(self).chunk_state.flags,
                ),
            ),
    {
        let ghost v_entry = stack_view(self.subtree_stack@);
        let right = self.subtree_stack.pop().unwrap();
        let left = self.subtree_stack.pop().unwrap();
        proof {
            assert(right@ == v_entry.last());
            assert(left@ == v_entry[v_entry.len() - 2]);
        }
        let parent = parent_output(&left, &right, &self.key, self.chunk_state.flags);
        let pcv = parent.chaining_value();
        self.subtree_stack.push(pcv);
        proof {
            assert(stack_view(self.subtree_stack@) =~= v_entry.drop_last().drop_last().push(
                parent_cv(v_entry[v_entry.len() - 2], v_entry.last(), self.key@, self.chunk_state.flags),
            ));
        }
    }

    /// Push a completed chunk's chaining value, then merge pairs of
    /// equal-size subtrees until the stack again has one entry per set
    /// bit of the completed-chunk count.  `prefix` is the bytes the
    /// stack covered before, `chunkdata` the completed chunk's bytes.
    fn push_chunk_chaining_value(
        &mut self,
        cv: &Vec<u32>,
        total_bytes: u64,
        prefix: Ghost<Seq<u8>>,
        chunkdata: Ghost<Seq<u8>>,
    )
        requires
            old(self).key@.len() == 8,
            good_stack(
                stack_view(old(self).subtree_stack@),
                old(self).key@,
                old(self).chunk_state.flags,
                0,
                prefix@,
            ),
            prefix@.len() % 2048 == 0,
            chunkdata@.len() == 2048,
            total_bytes as nat == prefix@.len() + 2048,
            cv@ == node_cv(old(self).key@, old(self).chunk_state.flags, prefix@.len() / 2048, chunkdata@),
            cv@.len() == 8,
        ensures
            final(self).key == old(self).key,
            final(self).chunk_state == old(self).chunk_state,
            final(self).absorbed == old(self).absorbed,
            good_stack(
                stack_view(final(self).subtree_stack@),
                old(self).key@,
                old(self).chunk_state.flags,
                0,
                prefix@ + chunkdata@,
            ),
    {
        let ghost key = self.key@;
        let ghost flags = self.chunk_state.flags;
        let ghost all = prefix@ + chunkdata@;
        let ghost n0 = prefix@.len() / 2048;
        let ghost n1 = (n0 + 1) as nat;
        proof {
            vstd::arithmetic::div_mod::lemma_fundamental_div_mod(prefix@.len() as int, 2048);
            assert(prefix@.len() == 2048 * n0);
            assert(all.len() == 2048 * n1) by (nonlinear_arith)
                requires
                    all.len() == prefix@.len() + 2048,
                    prefix@.len() == 2048 * n0,
                    n1 == n0 + 1;
            crate::tree::lemma_mul_div_2048(n1);
        }
        self.subtree_stack.push(copy_words(cv));
        let total_chunks = total_bytes / (CHUNK_LEN as u64);
        proof {
            assert(total_bytes as nat == 2048 * n1);
            assert(total_chunks as nat == n1);
        }
        let pc = popcount64(total_chunks);
        let ghost mut j: nat = 0;
        let ghost mut m: nat = n0;
        proof {
            assert(two_pow(0) == 1);
            assert(n1 % 1 == 0 && n1 / 1 == n1) by (nonlinear_arith);
            crate::tree::lemma_good_stack_len(
                stack_view(old(self).subtree_stack@), key, flags, 0, prefix@);
            assert(stack_view(self.subtree_stack@).drop_last() =~= stack_view(old(self).subtree_stack@));
            assert(stack_view(self.subtree_stack@).last() == cv@);
            assert(all.subrange((m * 2048) as int, all.len() as int) =~= chunkdata@);
            assert(all.subrange(0, (m * 2048) as int) =~= prefix@);
        }
        while (self.subtree_stack.len() as u64) > pc
            invariant
                pc == popcount(n1),
                self.key == old(self).key,
                self.chunk_state == old(self).chunk_state,
                self.absorbed == old(self).absorbed,
                key == self.key@,
                flags == self.chunk_state.flags,
                key.len() == 8,
                all == prefix@ + chunkdata@,
                all.len() == 2048 * n1,
                m + two_pow(j) == n1,
                n1 % two_pow(j) == 0,
                self.subtree_stack@.len() == popcount(m) + 1,
                stack_view(self.subtree_stack@).last() == node_cv(key, flags, m, all.subrange((m * 2048) as int, all.len() as int)),
                good_stack(stack_view(self.subtree_stack@).drop_last(), key, flags, 0, all.subrange(0, (m * 2048) as int)),
            decreases self.subtree_stack@.len(),
        {
            let ghost lo = two_pow(j);
            proof {
                lemma_two_pow_pos(j);
                lemma_popcount_pos(n1);
                if m == 0 {
                    assert(popcount(0nat) == 0);
                    assert(false);
                }
                crate::tree::lemma_self_div(lo);
                crate::tree::lemma_multiple_add_sub(n1, lo, lo);
                assert(m % lo == 0);
                lemma_bit_parity(m, j);
                if m % two_pow(j + 1) == 0 {
                    lemma_popcount_add_clear(m, j);
                    assert(false);
                }
                assert((m / lo) % 2 == 1);
                lemma_lobit_unique(m, j);
                assert((m * 2048) % 2048 == 0 && (m * 2048) / 2048 == m && m * 2048 <= all.len()) by (nonlinear_arith)
                    requires
                        m + lo == n1,
                        all.len() == 2048 * n1,
                        lo >= 1,
                        (2048 * m) % 2048 == 0,
                        (2048 * m) / 2048 == m;
                crate::tree::lemma_mul_div_2048(m);
                lemma_good_stack_last(
                    stack_view(self.subtree_stack@).drop_last(),
                    key,
                    flags,
                    0,
                    all.subrange(0, (m * 2048) as int),
                );
            }
            let ghost v_entry = stack_view(self.subtree_stack@);
            let ghost m1 = (m - lo) as nat;
            let ghost head = all.subrange(0, (m * 2048) as int);
            proof {
                assert(v_entry[v_entry.len() - 2] == v_entry.drop_last().last());
                assert(head.subrange((m1 * 2048) as int, (m * 2048) as int) =~= all.subrange((m1 * 2048) as int, (m * 2048) as int));
                assert(v_entry[v_entry.len() - 2] == node_cv(key, flags, m1, all.subrange((m1 * 2048) as int, (m * 2048) as int)));
            }
            self.merge_two_subtrees();
            proof {
                let pcv = parent_cv(v_entry[v_entry.len() - 2], v_entry.last(), key, flags);
                let leftbytes = all.subrange((m1 * 2048) as int, (m * 2048) as int);
                let rightbytes = all.subrange((m * 2048) as int, all.len() as int);
                assert(leftbytes.len() == lo * 2048 && rightbytes.len() == lo * 2048) by (nonlinear_arith)
                    requires
                        leftbytes.len() == m * 2048 - m1 * 2048,
                        rightbytes.len() == all.len() - m * 2048,
                        all.len() == 2048 * n1,
                        m1 == m - lo,
                        lo <= m,
                        m + lo == n1;
                lemma_node_parent(key, flags, m1, leftbytes, rightbytes, j);
                assert(leftbytes + rightbytes =~= all.subrange((m1 * 2048) as int, all.len() as int));
                assert(pcv == node_cv(key, flags, m1, all.subrange((m1 * 2048) as int, all.len() as int)));
                // The carry advances one bit: the quotients by `lo` of
                // both the merged base and the total become even.
                crate::tree::lemma_multiple_add_sub(m, lo, lo);
                assert((m1 / lo) % 2 == 0 && (n1 / lo) % 2 == 0) by {
                    assert(m1 % lo == 0 && m1 / lo == m / lo - 1);
                    assert(n1 / lo == m / lo + 1);
                }
                lemma_bit_parity(m1, j);
                lemma_bit_parity(n1, j);
                assert(m1 % two_pow(j + 1) == 0 && n1 % two_pow(j + 1) == 0);
                lemma_popcount_add_clear(m1, j);
                assert(popcount(m) == popcount(m1) + 1);
                // Stack shape after pop, pop, push.
                assert(stack_view(self.subtree_stack@).last() == pcv);
                assert(stack_view(self.subtree_stack@).drop_last() =~= v_entry.drop_last().drop_last());
                assert(head.subrange(0, (m1 * 2048) as int) =~= all.subrange(0, (m1 * 2048) as int));
                assert(good_stack(stack_view(self.subtree_stack@).drop_last(), key, flags, 0, all.subrange(0, (m1 * 2048) as int)));
                m = m1;
                j = j + 1;
            }
        }
        proof {
            lemma_two_pow_pos(j);
            let lo = two_pow(j);
            if m >= 1 {
                crate::tree::lemma_self_div(lo);
                crate::tree::lemma_multiple_add_sub(n1, lo, lo);
                assert(m % lo == 0);
                lemma_bit_parity(m, j);
                if (m / lo) % 2 == 1 {
                    lemma_popcount_add_set(m, j);
                    assert(false);
                }
                assert(m % two_pow(j + 1) == 0);
            } else {
                assert(m % two_pow(j + 1) == 0) by (nonlinear_arith)
                    requires
                        m == 0,
                        two_pow(j + 1) >= 1;
                lemma_two_pow_pos((j + 1) as nat);
            }
            let below = stack_view(self.subtree_stack@).drop_last();
            let head = all.subrange(0, (m * 2048) as int);
            let extra = all.subrange((m * 2048) as int, all.len() as int);
            assert(head.len() == 2048 * m && extra.len() == lo * 2048) by (nonlinear_arith)
                requires
                    head.len() == m * 2048,
                    extra.len() == all.len() - m * 2048,
                    all.len() == 2048 * n1,
                    m + lo == n1;
            crate::tree::lemma_mul_div_2048(m);
            lemma_good_stack_push(
                below,
                key,
                flags,
                0,
                head,
                stack_view(self.subtree_stack@).last(),
                extra,
                j,
            );
            assert(below.push(stack_view(self.subtree_stack@).last()) =~= stack_view(self.subtree_stack@));
            assert(head + extra =~= all);
        }
    }

    /// One absorption step: if the current chunk is complete and more
    /// input follows, close it — push its chaining value and start a
    /// fresh chunk — then route bytes into the current chunk.
    fn absorb_step(&mut self, input: &[u8], pos: usize) -> (newpos: usize)
        requires
            old(self).wf(),
            pos < input@.len(),
            old(self).absorbed@.len() + (input@.len() - pos) <= u64::MAX,
        ensures
            final(self).wf(),
            pos < newpos <= input@.len(),
            final(self).absorbed@ == old(self).absorbed@ + input@.subrange(pos as int, newpos as int),
            final(self).key == old(self).key,
            final(self).chunk_state.flags == old(self).chunk_state.flags,
    {
        let ghost t = self.absorbed@.len();
        let ghost n = complete_chunks(t);
        let ghost cov: nat = if self.chunk_state.absorbed@.len() == 2048 {
            t
        } else {
            (n * 2048) as nat
        };
        let len = self.chunk_state.len();
        let is_full = len == CHUNK_LEN;
        if is_full {
            let ghost prefix = self.absorbed@.subrange(0, (n * 2048) as int);
            let ghost chunkdata = self.absorbed@.subrange((n * 2048) as int, t as int);
            proof {
                assert(t == n * 2048 + 2048);
            }
            let output = self.chunk_state.output();
            let chunk_cv_words = output.chaining_value();
            let new_offset = self.chunk_state.offset + (CHUNK_LEN as u64);
            proof {
                assert(new_offset as nat == t);
                assert((n * 2048) as u64 == self.chunk_state.offset);
                assert(chunk_cv_words@ == node_cv(self.key@, self.chunk_state.flags, n, chunkdata)) by {
                    assert(chunkdata.len() == 2048);
                }
                assert(prefix.len() == n * 2048);
                assert(prefix.len() % 2048 == 0 && prefix.len() / 2048 == n) by {
                    crate::tree::lemma_mul_div_2048(n);
                }
            }
            self.push_chunk_chaining_value(&chunk_cv_words, new_offset, Ghost(prefix), Ghost(chunkdata));
            let fresh = ChunkState::new(&self.key, new_offset, self.chunk_state.flags);
            self.chunk_state = fresh;
            proof {
                assert(prefix + chunkdata =~= self.absorbed@);
            }
        }
        proof {
            // In either case the stack now covers `cov` bytes and the
            // current chunk the tail beyond them.
            assert(cov % 2048 == 0) by {
                crate::tree::lemma_mul_div_2048(n);
                crate::tree::lemma_mul_div_2048((n + 1) as nat);
            }
            assert(self.chunk_state.offset as nat == cov);
            assert(self.chunk_state.absorbed@ =~= self.absorbed@.subrange(cov as int, t as int));
            if is_full {
                assert(cov == t);
                assert(self.absorbed@.subrange(0, cov as int) =~= self.absorbed@);
            }
            assert(good_stack(stack_view(self.subtree_stack@), self.key@, self.chunk_state.flags, 0, self.absorbed@.subrange(0, cov as int)));
            assert(t - cov < 2048);
        }
        let want = CHUNK_LEN - self.chunk_state.len();
        let rem = input.len() - pos;
        let take = if want < rem {
            want
        } else {
            rem
        };
        self.chunk_state.update(input, pos, pos + take);
        self.absorbed = Ghost(self.absorbed@ + input@.subrange(pos as int, (pos + take) as int));
        proof {
            let t2 = self.absorbed@.len();
            assert(t2 == t + take);
            let q = cov / 2048;
            vstd::arithmetic::div_mod::lemma_fundamental_div_mod(cov as int, 2048);
            assert(complete_chunks(t2) == q) by (nonlinear_arith)
                requires
                    cov == 2048 * q,
                    cov <= t,
                    t - cov < 2048,
                    t2 == t + take,
                    1 <= take,
                    t - cov + take <= 2048,
                    complete_chunks(t2) == ((t2 - 1) as int) / 2048;
            assert((q * 2048) as nat == cov) by (nonlinear_arith)
                requires
                    cov == 2048 * q;
            assert(self.absorbed@.subrange(0, cov as int) =~= self.absorbed@.subrange(0, t as int).subrange(0, cov as int));
            assert(self.absorbed@.subrange(0, t as int) =~= old(self).absorbed@);
            assert(self.chunk_state.absorbed@ =~= self.absorbed@.subrange(cov as int, t2 as int));
        }
        pos + take
    }

    /// Absorb input bytes.  This can be called any number of times; the
    /// result of finalization depends only on the concatenation of all
    /// absorbed bytes, never on how they were split across calls.
    pub fn update(&mut self, input: &[u8])
        requires
            old(self).wf(),
            old(self).absorbed_bytes().len() + input@.len() <= u64::MAX,
        ensures
            final(self).wf(),
            final(self).absorbed_bytes() == old(self).absorbed_bytes() + input@,
            final(self).key_words() == old(self).key_words(),
            final(self).mode_flags() == old(self).mode_flags(),
    {
        let mut pos: usize = 0;
        while pos < input.len()
            invariant
                self.wf(),
                pos <= input@.len(),
                self.absorbed@.len() + (input@.len() - pos) <= u64::MAX,
                self.absorbed@ == old(self).absorbed@ + input@.subrange(0, pos as int),
                self.key == old(self).key,
                self.chunk_state.flags == old(self).chunk_state.flags,
            decreases input@.len() - pos,
        {
            pos = self.absorb_step(input, pos);
            proof {
                assert(self.absorbed@ =~= old(self).absorbed@ + input@.subrange(0, pos as int));
            }
        }
        proof {
            assert(self.absorbed@ =~= old(self).absorbed@ + input@);
        }
    }
    /// The root output bytes: either the lone chunk is the root, or the
    /// right edge of the tree is folded upward, each stack entry the
    /// left child of the next parent, and the topmost parent is the root.
    #[verifier::rlimit(100)]
    #[verifier::spinoff_prover]
    fn root_bytes(&self, out_len: usize) -> (out: Vec<u8>)
        requires
            self.wf(),
        ensures
            out@ == hash_bytes(self.key_words(), self.mode_flags(), self.absorbed_bytes(), out_len as nat),
            out@.len() == out_len,
    {
        let ghost t = self.absorbed@.len();
        let ghost n = complete_chunks(t);
        let ghost key = self.key@;
        let ghost flags = self.chunk_state.flags;
        proof {
            crate::tree::lemma_mul_div_2048(n);
            lemma_good_stack_len(
                stack_view(self.subtree_stack@),
                key,
                flags,
                0,
                self.absorbed@.subrange(0, (n * 2048) as int),
            );
        }
        if self.subtree_stack.len() == 0 {
            // The current chunk is the whole tree.
            proof {
                if n >= 1 {
                    lemma_popcount_pos(n);
                }
                assert(n == 0);
                assert(t <= 2048);
                assert(self.chunk_state.absorbed@ =~= self.absorbed@);
                assert(self.chunk_state.offset == 0);
            }
            let o = self.chunk_state.output();
            o.root_output(out_len)
        } else {
            proof {
                if n == 0 {
                    assert(popcount(0nat) == 0);
                    assert(false);
                }
                assert(2048 * n < t) by (nonlinear_arith)
                    requires
                        n >= 1,
                        t >= 1,
                        n == ((t - 1) as int) / 2048,
                        (t - 1) as int == 2048 * (((t - 1) as int) / 2048) + ((t - 1) as int) % 2048,
                        0 <= ((t - 1) as int) % 2048 < 2048;
            }
            proof {
                vstd::arithmetic::div_mod::lemma_fundamental_div_mod((t - 1) as int, 2048);
                assert(2048 * n < t <= 2048 * (n + 1)) by (nonlinear_arith)
                    requires
                        n >= 1,
                        t >= 1,
                        n == ((t - 1) as int) / 2048,
                        (t - 1) as int == 2048 * (((t - 1) as int) / 2048) + ((t - 1) as int) % 2048,
                        0 <= ((t - 1) as int) % 2048 < 2048;
            }
            let o0 = self.chunk_state.output();
            let mut right_child = o0.chaining_value();
            let mut i = self.subtree_stack.len();
            let ghost mut m: nat = n;
            proof {
                lemma_two_pow_pos(lobit(m));
                assert(right_child@ == node_cv(key, flags, n, self.absorbed@.subrange((n * 2048) as int, t as int))) by {
                    assert((n * 2048) as u64 == self.chunk_state.offset);
                }
                assert(stack_view(self.subtree_stack@).take(self.subtree_stack@.len() as int) =~= stack_view(self.subtree_stack@));
            }
            loop
                invariant
                    t == self.absorbed@.len(),
                    n == complete_chunks(t),
                    key == self.key@,
                    flags == self.chunk_state.flags,
                    key.len() == 8,
                    2048 * n < t <= 2048 * (n + 1),
                    1 <= m <= n,
                    1 <= i == popcount(m),
                    i <= self.subtree_stack@.len(),
                    good_stack(
                        stack_view(self.subtree_stack@).take(i as int),
                        key,
                        flags,
                        0,
                        self.absorbed@.subrange(0, (m * 2048) as int),
                    ),
                    right_child@ == node_cv(key, flags, m, self.absorbed@.subrange((m * 2048) as int, t as int)),
                    right_child@.len() == 8,
                    n + 1 - m <= two_pow(lobit(m)),
                decreases i,
            {
                let ghost lo = two_pow(lobit(m));
                let ghost m1 = (m - lo) as nat;
                let ghost head = self.absorbed@.subrange(0, (m * 2048) as int);
                proof {
                    lemma_lobit(m);
                    crate::tree::lemma_mul_div_2048(m);
                    assert(head.len() == 2048 * m && m * 2048 <= t) by (nonlinear_arith)
                        requires
                            head.len() == m * 2048,
                            m <= n,
                            2048 * n < t;
                    lemma_good_stack_last(
                        stack_view(self.subtree_stack@).take(i as int),
                        key,
                        flags,
                        0,
                        head,
                    );
                    assert(stack_view(self.subtree_stack@).take(i as int).last() == stack_view(self.subtree_stack@)[i - 1]);
                    assert(head.subrange((m1 * 2048) as int, (m * 2048) as int) =~= self.absorbed@.subrange((m1 * 2048) as int, (m * 2048) as int));
                    assert(head.subrange(0, (m1 * 2048) as int) =~= self.absorbed@.subrange(0, (m1 * 2048) as int));
                }
                let left = &self.subtree_stack[i - 1];
                let output = parent_output(left, &right_child, &self.key, self.chunk_state.flags);
                proof {
                    let leftbytes = self.absorbed@.subrange((m1 * 2048) as int, (m * 2048) as int);
                    let rightbytes = self.absorbed@.subrange((m * 2048) as int, t as int);
                    assert(leftbytes.len() == lo * 2048 && 0 < rightbytes.len() <= lo * 2048) by (nonlinear_arith)
                        requires
                            leftbytes.len() == m * 2048 - m1 * 2048,
                            rightbytes.len() == t - m * 2048,
                            m1 == m - lo,
                            lo <= m,
                            2048 * n < t <= 2048 * (n + 1),
                            m <= n,
                            n + 1 - m <= lo;
                    lemma_node_parent(key, flags, m1, leftbytes, rightbytes, lobit(m));
                    assert(leftbytes + rightbytes =~= self.absorbed@.subrange((m1 * 2048) as int, t as int));
                    assert(output@ == node_output(key, flags, m1, self.absorbed@.subrange((m1 * 2048) as int, t as int)));
                }
                if i == 1 {
                    proof {
                        // The stack below is empty, so this parent covers
                        // everything: it is the root.
                        assert(stack_view(self.subtree_stack@).take(1).drop_last().len() == 0);
                        assert(m1 == 0) by {
                            if m1 * 2048 > 0 {
                                assert(self.absorbed@.subrange(0, (m1 * 2048) as int).len() > 0);
                            }
                            assert((m1 * 2048) as int == 0 ==> m1 == 0) by (nonlinear_arith);
                        }
                        assert(self.absorbed@.subrange(0, t as int) =~= self.absorbed@);
                        assert(output@ == node_output(key, flags, 0, self.absorbed@));
                    }
                    return output.root_output(out_len);
                }
                right_child = output.chaining_value();
                proof {
                    // The stack below the consumed entry covers `m1`
                    // chunks; the carry's low bit strictly rises.
                    lemma_good_stack_len(
                        stack_view(self.subtree_stack@).take(i as int).drop_last(),
                        key,
                        flags,
                        0,
                        self.absorbed@.subrange(0, (m1 * 2048) as int),
                    );
                    crate::tree::lemma_mul_div_2048(m1);
                    assert(popcount(m1) == i - 1);
                    if m1 == 0 {
                        assert(popcount(0nat) == 0);
                        assert(false);
                    }
                    crate::tree::lemma_self_div(lo);
                    crate::tree::lemma_multiple_add_sub(m, lo, lo);
                    assert(m1 % lo == 0 && (m1 / lo) % 2 == 0);
                    lemma_bit_parity(m1, lobit(m));
                    lemma_lobit_min(m1, lobit(m) + 1);
                    lemma_two_pow_increases(lobit(m) + 1, lobit(m1));
                    assert(two_pow(lobit(m) + 1) == 2 * lo);
                    assert(n + 1 - m1 <= two_pow(lobit(m1)));
                    assert(stack_view(self.subtree_stack@).take(i as int).drop_last() =~= stack_view(self.subtree_stack@).take(i - 1));
                    m = m1;
                }
                i = i - 1;
            }
        }
    }

    /// Finalize into `out`, overwriting its contents and keeping its
    /// length: `out` receives that many bytes of the extendable output
    /// of everything absorbed so far.  The hasher itself is untouched,
    /// so it can absorb more input or be finalized again.
    pub fn finalize_extended(&self, out: &mut Vec<u8>)
        requires
            self.wf(),
        ensures
            final(out)@ == hash_bytes(self.key_words(), self.mode_flags(), self.absorbed_bytes(), old(out)@.len()),
            final(out)@.len() == old(out)@.len(),
    {
        let n = out.len();
        let bytes = self.root_bytes(n);
        *out = bytes;
    }

    /// Finalize and return the default 32-byte output.
    pub fn finalize(&self) -> (out: Vec<u8>)
        requires
            self.wf(),
        ensures
            out@ == hash_bytes(self.key_words(), self.mode_flags(), self.absorbed_bytes(), OUT_LEN as nat),
            out@.len() == OUT_LEN,
    {
        self.root_bytes(OUT_LEN)
    }
}

/// The tree-stack invariant: a well-formed hasher's subtree stack holds
/// exactly one chaining value per set bit of the completed-chunk count,
/// and, read bottom-up, the entries are the chaining values of the
/// maximal complete subtrees covering those chunks, largest first.
/// The final full chunk is held in the chunk state until a byte beyond
/// it arrives, so after exactly `N * CHUNK_LEN` absorbed bytes the
/// completed-chunk count is `N - 1`, not `N`.
pub proof fn lemma_tree_stack_invariant(h: Hasher)
    requires
        h.wf(),
    ensures
        ({
            let n = complete_chunks(h.absorbed_bytes().len());
            &&& h.subtree_stack@.len() == popcount(n)
            &&& good_stack(
                stack_view(h.subtree_stack@),
                h.key_words(),
                h.mode_flags(),
                0,
                h.absorbed_bytes().subrange(0, (n * 2048) as int),
            )
        }),
{
    let n = complete_chunks(h.absorbed_bytes().len());
    crate::tree::lemma_mul_div_2048(n);
    lemma_good_stack_len(
        stack_view(h.subtree_stack@),
        h.key_words(),
        h.mode_flags(),
        0,
        h.absorbed_bytes().subrange(0, (n * 2048) as int),
    );
}

/// Read a 32-byte key as eight little-endian words.
fn key_bytes_to_words(key: &[u8; KEY_LEN]) -> (w: Vec<u32>)
    ensures
        w@ == words_of_bytes(key@),
        w@.len() == 8,
{
    let mut bytes: Vec<u8> = Vec::new();
    let mut i: usize = 0;
    while i < KEY_LEN
        invariant
            i <= 32,
            bytes@.len() == i,
            forall|k: int| 0 <= k < i ==> bytes@[k] == key@[k],
        decreases 32 - i,
    {
        bytes.push(key[i]);
        i = i + 1;
    }
    proof {
        assert(bytes@ =~= key@);
    }
    words_from_byte_vec(&bytes)
}

} // verus!
