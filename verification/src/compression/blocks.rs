//! The chunker: splits a byte source into an ordered sequence of raw blocks
//! whose concatenation reproduces the source exactly.

use vstd::prelude::*;

verus! {

/// The ordered raw blocks of `s` under block size `b`: every block is
/// exactly `b` bytes except the last, which holds the remainder; an empty
/// source has no blocks, and no block is ever empty.
pub open spec fn blocks_of(s: Seq<u8>, b: int) -> Seq<Seq<u8>>
    decreases s.len() when b >= 1
{
    if s.len() == 0 {
        Seq::empty()
    } else if s.len() <= b {
        seq![s]
    } else {
        seq![s.take(b)] + blocks_of(s.skip(b), b)
    }
}

/// There are exactly as many blocks as block-size pieces, the last possibly
/// partial: the count is the length divided by `b`, rounded up.
pub proof fn lemma_blocks_count(s: Seq<u8>, b: int)
    requires
        b >= 1,
    ensures
        blocks_of(s, b).len() == (s.len() + b - 1) / b,
    decreases s.len(),
{
    if s.len() == 0 {
        vstd::arithmetic::div_mod::lemma_fundamental_div_mod_converse(b - 1, b, 0, b - 1);
    } else if s.len() <= b {
        vstd::arithmetic::div_mod::lemma_fundamental_div_mod_converse(
            s.len() + b - 1,
            b,
            1,
            s.len() - 1,
        );
    } else {
        lemma_blocks_count(s.skip(b), b);
        let q = (s.len() - 1) / b;
        let r = (s.len() - 1) % b;
        vstd::arithmetic::div_mod::lemma_fundamental_div_mod(s.len() - 1, b);
        vstd::arithmetic::div_mod::lemma_mod_bound(s.len() - 1, b);
        assert((q + 1) * b == q * b + b) by (nonlinear_arith);
        assert(s.len() + b - 1 == (q + 1) * b + r);
        vstd::arithmetic::div_mod::lemma_fundamental_div_mod_converse(
            s.len() + b - 1,
            b,
            q + 1,
            r,
        );
    }
}

/// Concatenating the blocks in order reproduces the source exactly.
pub proof fn lemma_blocks_concat(s: Seq<u8>, b: int)
    requires
        b >= 1,
    ensures
        blocks_of(s, b).flatten() == s,
    decreases s.len(),
{
    if s.len() == 0 {
        assert(blocks_of(s, b) =~= Seq::<Seq<u8>>::empty());
        assert(Seq::<Seq<u8>>::empty().flatten() =~= s);
    } else if s.len() <= b {
        let bs = blocks_of(s, b);
        bs.lemma_flatten_one_element();
        assert(bs.first() == s);
    } else {
        lemma_blocks_concat(s.skip(b), b);
        let bs = blocks_of(s, b);
        assert(bs.len() > 0);
        assert(bs.first() == s.take(b));
        assert(bs.drop_first() =~= blocks_of(s.skip(b), b));
        assert(bs.flatten() == bs.first() + bs.drop_first().flatten());
        assert(s.take(b) + s.skip(b) =~= s);
    }
}

/// Every block is non-empty and at most `b` bytes; every block except the
/// last is exactly `b` bytes.
pub proof fn lemma_blocks_sizes(s: Seq<u8>, b: int)
    requires
        b >= 1,
    ensures
        forall|i: int| 0 <= i < blocks_of(s, b).len() ==> 1 <= #[trigger] blocks_of(
            s,
            b,
        )[i].len() <= b,
        forall|i: int| 0 <= i < blocks_of(s, b).len() - 1 ==> #[trigger] blocks_of(
            s,
            b,
        )[i].len() == b,
    decreases s.len(),
{
    if s.len() == 0 {
    } else if s.len() <= b {
    } else {
        lemma_blocks_sizes(s.skip(b), b);
        assert forall|i: int| 0 <= i < blocks_of(s, b).len() implies 1 <= #[trigger] blocks_of(
            s,
            b,
        )[i].len() <= b by {
            if i > 0 {
                assert(blocks_of(s, b)[i] == blocks_of(s.skip(b), b)[i - 1]);
            }
        }
        assert forall|i: int| 0 <= i < blocks_of(s, b).len() - 1 implies #[trigger] blocks_of(
            s,
            b,
        )[i].len() == b by {
            if i > 0 {
                assert(blocks_of(s, b)[i] == blocks_of(s.skip(b), b)[i - 1]);
            }
        }
    }
}

/// Splits the source into its raw blocks, in order.
pub fn split_blocks(data: &[u8], block_size: usize) -> (r: Vec<Vec<u8>>)
    requires
        1 <= block_size,
    ensures
        r@.map_values(|v: Vec<u8>| v@) == blocks_of(data@, block_size as int),
{
    let ghost b = block_size as int;
    let mut blocks: Vec<Vec<u8>> = Vec::new();
    let mut i: usize = 0;
    let len = data.len();
    proof {
        assert(data@.skip(0) =~= data@);
        assert(blocks@.map_values(|v: Vec<u8>| v@) =~= Seq::<Seq<u8>>::empty());
        assert(blocks@.map_values(|v: Vec<u8>| v@) + blocks_of(data@.skip(0), b) =~= blocks_of(
            data@,
            b,
        ));
    }
    while i < len
        invariant
            1 <= block_size,
            b == block_size as int,
            i <= len,
            len == data@.len(),
            blocks_of(data@, b) == blocks@.map_values(|v: Vec<u8>| v@) + blocks_of(
                data@.skip(i as int),
                b,
            ),
        decreases len - i,
    {
        let j = if len - i < block_size {
            len
        } else {
            i + block_size
        };
        let piece = vstd::slice::slice_subrange(data, i, j);
        let block = vstd::slice::slice_to_vec(piece);
        proof {
            let rest = data@.skip(i as int);
            let prefix = blocks@.map_values(|v: Vec<u8>| v@);
            assert(block@ == data@.subrange(i as int, j as int));
            if len - i < block_size {
                assert(rest =~= block@);
                assert(blocks_of(rest, b) == seq![rest]);
                assert(data@.skip(j as int) =~= Seq::<u8>::empty());
                assert(prefix + blocks_of(rest, b) =~= (prefix + seq![block@]) + blocks_of(
                    data@.skip(j as int),
                    b,
                ));
            } else {
                assert(rest.take(b) =~= block@);
                assert(rest.skip(b) =~= data@.skip(j as int));
                assert(blocks_of(rest, b) == seq![block@] + blocks_of(data@.skip(j as int), b));
                assert(prefix + blocks_of(rest, b) =~= (prefix + seq![block@]) + blocks_of(
                    data@.skip(j as int),
                    b,
                ));
            }
            assert(blocks@.push(block).map_values(|v: Vec<u8>| v@) =~= prefix + seq![block@]);
        }
        blocks.push(block);
        i = j;
    }
    proof {
        assert(data@.skip(len as int) =~= Seq::<u8>::empty());
        assert(blocks@.map_values(|v: Vec<u8>| v@) + blocks_of(data@.skip(len as int), b)
            =~= blocks@.map_values(|v: Vec<u8>| v@));
    }
    blocks
}

} // verus!
