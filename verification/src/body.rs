//! How a body falls into blocks.
use vstd::arithmetic::div_mod::lemma_fundamental_div_mod;
use vstd::arithmetic::power2::lemma2_to64;
use vstd::arithmetic::power2::lemma_pow2_pos;
use vstd::arithmetic::power2::pow2;
use vstd::bits::lemma_usize_pow2_no_overflow;
use vstd::bits::lemma_usize_shl_is_mul;
use vstd::prelude::*;

verus! {

/// The block size that a size exponent stands for.
pub open spec fn block_len(szx: u8) -> nat {
    pow2((szx + 4) as nat)
}

/// Whether the block size for a size exponent fits a `usize`.
pub open spec fn szx_fits(szx: u8) -> bool {
    szx + 4 < usize::BITS
}

/// How many blocks of `size` bytes a body of `len` bytes spans; an empty body spans one.
pub open spec fn block_count(len: nat, size: nat) -> nat {
    if len == 0 {
        1
    } else {
        (len + size - 1) as nat / size
    }
}

/// Where block `n` starts.
pub open spec fn block_start(size: nat, n: nat) -> nat {
    n * size
}

/// Where block `n` ends: a block later, or at the end of the body.
pub open spec fn block_end(len: nat, size: nat, n: nat) -> nat {
    if n * size + size <= len {
        n * size + size
    } else {
        len
    }
}

/// The bytes of block `n`.
pub open spec fn block_of(body: Seq<u8>, size: nat, n: nat) -> Seq<u8> {
    body.subrange(block_start(size, n) as int, block_end(body.len(), size, n) as int)
}

/// The block size for a size exponent.
pub fn block_size(szx: u8) -> (size: usize)
    requires
        szx_fits(szx),
    ensures
        size == block_len(szx),
        size > 0,
{
    let shift: usize = szx as usize + 4;
    proof {
        lemma_usize_pow2_no_overflow(shift as nat);
        lemma_usize_shl_is_mul(1, shift);
        lemma_pow2_pos(shift as nat);
    }
    1usize << shift
}

/// How many blocks of `size` bytes a body of `len` bytes spans.
pub fn count_blocks(len: usize, size: usize) -> (count: usize)
    requires
        size > 0,
    ensures
        count == block_count(len as nat, size as nat),
        count > 0,
{
    proof {
        lemma_block_count(len as nat, size as nat);
    }
    if len == 0 {
        1
    } else {
        (len - 1) / size + 1
    }
}

/// A non-empty body spans one block more than fit in front of its last byte.
pub proof fn lemma_block_count(len: nat, size: nat)
    requires
        size > 0,
    ensures
        block_count(len, size) > 0,
        len > 0 ==> block_count(len, size) == (len - 1) as nat / size + 1,
{
    if len > 0 {
        let l = (len - 1) as int;
        let s = size as int;
        assert((l + s) / s == l / s + 1) by (nonlinear_arith)
            requires
                s > 0,
        ;
    }
}

/// Blocks within the count start inside the body, and only the last one reaches its end.
pub proof fn lemma_block_bounds(len: nat, size: nat, n: nat)
    requires
        size > 0,
        n < block_count(len, size),
    ensures
        block_start(size, n) <= len,
        len > 0 ==> block_start(size, n) < len,
        block_start(size, n) <= block_end(len, size, n) <= len,
        n + 1 < block_count(len, size) ==> block_end(len, size, n) == n * size + size,
        n + 1 < block_count(len, size) ==> n * size + size < len,
        n + 1 == block_count(len, size) ==> block_end(len, size, n) == len,
{
    lemma_block_count(len, size);
    if len > 0 {
        let q = (len - 1) as nat / size;
        lemma_fundamental_div_mod(len - 1, size as int);
        assert(n * size <= q * size) by (nonlinear_arith)
            requires
                n <= q,
        ;
        assert(size * q == q * size) by (nonlinear_arith);
        if n < q {
            assert(n * size + size <= q * size) by (nonlinear_arith)
                requires
                    n + 1 <= q,
            ;
        }
    } else {
        assert(n * size == 0) by (nonlinear_arith)
            requires
                n == 0,
        ;
    }
}

/// Byte `i` of a body lies in block `i / size`.
pub proof fn lemma_block_of_byte(len: nat, size: nat, i: nat)
    requires
        size > 0,
        i < len,
    ensures
        i / size < block_count(len, size),
        block_start(size, i / size) <= i < block_end(len, size, i / size),
{
    lemma_block_count(len, size);
    lemma_fundamental_div_mod(i as int, size as int);
    let q = i / size;
    assert(size * q == q * size) by (nonlinear_arith);
    assert(i / size <= (len - 1) as nat / size) by (nonlinear_arith)
        requires
            size > 0,
            i <= len - 1,
            len > 0,
    ;
}

/// Size exponents below eight stand for blocks of 16 to 2048 bytes.
pub proof fn lemma_small_sizes(szx: u8)
    requires
        szx < 8,
    ensures
        szx_fits(szx),
        16 <= block_len(szx) <= 2048,
{
    lemma2_to64();
}

} // verus!
