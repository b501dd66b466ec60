use vstd::prelude::*;
use crate::block::{Block, TagError, block_code, canonical, encodable, PADDING};
use crate::codec::{block_bytes, decode_block, decodable, declared_len, encode_block, header_bytes};
use crate::round_trip::{lemma_block_at, lemma_layouts_agree, lemma_prefix_congruent, lemma_suffix_laid_out};
use crate::block::payload_bytes;

verus! {

/// The four bytes that open a FLAC stream: `fLaC`.
pub open spec fn magic() -> Seq<u8> {
    seq![0x66u8, 0x4Cu8, 0x61u8, 0x43u8]
}

/// Holds of the blocks with type code `c`.
pub open spec fn has_code(c: u8) -> spec_fn(Block) -> bool {
    |b: Block| block_code(b) == c
}

/// Holds of the blocks whose type code is not `c`.
pub open spec fn lacks_code(c: u8) -> spec_fn(Block) -> bool {
    |b: Block| block_code(b) != c
}

/// The size that a padding block reserves; zero for any other block.
pub open spec fn padding_size(b: Block) -> int {
    match b {
        Block::PaddingBlock(n) => n as int,
        _ => 0,
    }
}

/// The sum of the sizes of the padding blocks in `bs`.
pub open spec fn padding_total(bs: Seq<Block>) -> int
    decreases bs.len(),
{
    if bs.len() == 0 {
        0
    } else {
        padding_total(bs.drop_last()) + padding_size(bs.last())
    }
}

/// `bs` without its padding, then one padding block holding the sum of their sizes.
pub open spec fn aggregated(bs: Seq<Block>) -> Seq<Block> {
    bs.filter(lacks_code(PADDING)).push(Block::PaddingBlock(padding_total(bs) as u32))
}

/// The rank of a block in the written order: stream info first, padding last.
pub open spec fn priority(b: Block) -> int {
    match b {
        Block::StreamInfoBlock(_) => 0,
        Block::PaddingBlock(_) => 2,
        _ => 1,
    }
}

/// Holds of the blocks of rank `p`.
pub open spec fn has_priority(p: int) -> spec_fn(Block) -> bool {
    |b: Block| priority(b) == p
}

/// `bs` stably ordered by rank.
#[verifier::opaque]
pub open spec fn by_priority(bs: Seq<Block>) -> Seq<Block> {
    bs.filter(has_priority(0)) + bs.filter(has_priority(1)) + bs.filter(has_priority(2))
}

/// The blocks of `bs` in the order in which they are written.
pub open spec fn normalized(bs: Seq<Block>) -> Seq<Block> {
    by_priority(aggregated(bs))
}

/// The bytes of the first `k` blocks of `bs`, where the last block of `bs` carries the
/// last-block flag.
pub open spec fn blocks_prefix(bs: Seq<Block>, k: int) -> Seq<u8>
    decreases k,
{
    if k <= 0 {
        seq![]
    } else {
        blocks_prefix(bs, k - 1) + block_bytes(k - 1 == bs.len() - 1, bs[k - 1])
    }
}

/// The bytes of a tag made of blocks `bs`.
pub open spec fn tag_bytes(bs: Seq<Block>) -> Seq<u8> {
    magic() + blocks_prefix(bs, bs.len() as int)
}

/// Blocks `bs` lie in `b` from `pos` to `end`, one after another; where `closed`, the last
/// of them carries the last-block flag and no other does. A padding block's content is not
/// compared.
pub open spec fn laid_out(b: Seq<u8>, pos: int, bs: Seq<Block>, end: int, closed: bool) -> bool
    decreases bs.len(),
{
    if bs.len() == 0 {
        pos == end
    } else {
        let blk = bs[0];
        let next = pos + 4 + payload_bytes(blk).len();
        &&& 0 <= pos
        &&& next <= b.len()
        &&& header_bytes(closed && bs.len() == 1, blk) == b.subrange(pos, pos + 4)
        &&& (blk is PaddingBlock || payload_bytes(blk) == b.subrange(pos + 4, next))
        &&& laid_out(b, next, bs.drop_first(), end, closed)
    }
}

pub(crate) proof fn lemma_filter_step<A>(s: Seq<A>, i: int, p: spec_fn(A) -> bool)
    requires
        0 <= i < s.len(),
    ensures
        s.subrange(0, i + 1).filter(p) == if p(s[i]) {
            s.subrange(0, i).filter(p).push(s[i])
        } else {
            s.subrange(0, i).filter(p)
        },
{
    reveal(Seq::filter);
    assert(s.subrange(0, i + 1).drop_last() =~= s.subrange(0, i));
}

proof fn lemma_padding_prefix(s: Seq<Block>, i: int)
    requires
        0 <= i <= s.len(),
    ensures
        0 <= padding_total(s.subrange(0, i)) <= padding_total(s),
    decreases s.len() - i,
{
    if i < s.len() {
        lemma_padding_prefix(s, i + 1);
        assert(s.subrange(0, i + 1).drop_last() =~= s.subrange(0, i));
        assert(s.subrange(0, i + 1).last() == s[i]);
        assert(padding_size(s[i]) >= 0);
        lemma_padding_nonneg(s.subrange(0, i));
    } else {
        assert(s.subrange(0, i) =~= s);
        lemma_padding_nonneg(s);
    }
}

proof fn lemma_padding_nonneg(s: Seq<Block>)
    ensures
        padding_total(s) >= 0,
    decreases s.len(),
{
    if s.len() > 0 {
        lemma_padding_nonneg(s.drop_last());
        assert(padding_size(s.last()) >= 0);
    }
}

proof fn lemma_laid_out_push(
    b: Seq<u8>,
    pos: int,
    bs: Seq<Block>,
    end: int,
    x: Block,
    next: int,
    closed: bool,
)
    requires
        laid_out(b, pos, bs, end, false),
        0 <= end,
        next == end + 4 + payload_bytes(x).len(),
        next <= b.len(),
        header_bytes(closed, x) == b.subrange(end, end + 4),
        x is PaddingBlock || payload_bytes(x) == b.subrange(end + 4, next),
    ensures
        laid_out(b, pos, bs.push(x), next, closed),
    decreases bs.len(),
{
    if bs.len() == 0 {
        assert(bs.push(x).drop_first() =~= Seq::<Block>::empty());
        assert(bs.push(x)[0] == x);
        assert(laid_out(b, next, Seq::<Block>::empty(), next, closed));
    } else {
        let n = pos + 4 + payload_bytes(bs[0]).len();
        lemma_laid_out_push(b, n, bs.drop_first(), end, x, next, closed);
        assert(bs.push(x).drop_first() =~= bs.drop_first().push(x));
        assert(bs.push(x)[0] == bs[0]);
        assert(laid_out(b, n, bs.drop_first().push(x), next, closed));
    }
}

pub(crate) proof fn lemma_filter_all<A>(s: Seq<A>, p: spec_fn(A) -> bool)
    requires
        forall|i: int| 0 <= i < s.len() ==> p(#[trigger] s[i]),
    ensures
        s.filter(p) == s,
    decreases s.len(),
{
    reveal(Seq::filter);
    if s.len() > 0 {
        lemma_filter_all(s.drop_last(), p);
        assert(s.drop_last().push(s.last()) =~= s);
    }
}

pub(crate) proof fn lemma_filter_none<A>(s: Seq<A>, p: spec_fn(A) -> bool)
    requires
        forall|i: int| 0 <= i < s.len() ==> !p(#[trigger] s[i]),
    ensures
        s.filter(p) == Seq::<A>::empty(),
    decreases s.len(),
{
    reveal(Seq::filter);
    if s.len() > 0 {
        lemma_filter_none(s.drop_last(), p);
    }
}

proof fn lemma_filter_push<A>(s: Seq<A>, x: A, p: spec_fn(A) -> bool)
    ensures
        s.push(x).filter(p) == if p(x) {
            s.filter(p).push(x)
        } else {
            s.filter(p)
        },
{
    reveal(Seq::filter);
    assert(s.push(x).drop_last() =~= s);
}

pub(crate) proof fn lemma_filter_holds<A>(s: Seq<A>, p: spec_fn(A) -> bool)
    ensures
        forall|i: int| 0 <= i < s.filter(p).len() ==> p(#[trigger] s.filter(p)[i]),
{
    assert forall|i: int| 0 <= i < s.filter(p).len() implies p(#[trigger] s.filter(p)[i]) by {
        s.lemma_filter_pred(p, i);
    }
}

/// Merging the padding leaves exactly one block of the padding type, whose size is the sum
/// of the sizes of the padding blocks before, and leaves the blocks of every other type as
/// they were, in their order.
pub proof fn lemma_aggregate_padding(bs: Seq<Block>)
    ensures
        aggregated(bs).filter(has_code(PADDING)) == seq![
            Block::PaddingBlock(padding_total(bs) as u32),
        ],
        aggregated(bs).filter(lacks_code(PADDING)) == bs.filter(lacks_code(PADDING)),
{
    let f = bs.filter(lacks_code(PADDING));
    let pad = Block::PaddingBlock(padding_total(bs) as u32);
    lemma_filter_holds(bs, lacks_code(PADDING));
    lemma_filter_push(f, pad, has_code(PADDING));
    lemma_filter_push(f, pad, lacks_code(PADDING));
    lemma_filter_none(f, has_code(PADDING));
    lemma_filter_all(f, lacks_code(PADDING));
    assert(Seq::<Block>::empty().push(pad) =~= seq![pad]);
}

/// Ordering by rank puts every block of a lower rank before every block of a higher one:
/// stream info first, padding last. Within each rank the blocks keep their order.
pub proof fn lemma_write_order(bs: Seq<Block>)
    ensures
        forall|i: int, j: int|
            0 <= i < j < by_priority(bs).len() ==> priority(#[trigger] by_priority(bs)[i])
                <= priority(#[trigger] by_priority(bs)[j]),
        by_priority(bs).filter(has_priority(0)) == bs.filter(has_priority(0)),
        by_priority(bs).filter(has_priority(1)) == bs.filter(has_priority(1)),
        by_priority(bs).filter(has_priority(2)) == bs.filter(has_priority(2)),
        by_priority(bs).len() == bs.len(),
{
    reveal(by_priority);
    let a = bs.filter(has_priority(0));
    let b = bs.filter(has_priority(1));
    let c = bs.filter(has_priority(2));
    lemma_filter_holds(bs, has_priority(0));
    lemma_filter_holds(bs, has_priority(1));
    lemma_filter_holds(bs, has_priority(2));
    let r = a + b + c;
    assert forall|i: int, j: int| 0 <= i < j < r.len() implies priority(#[trigger] r[i]) <= priority(
        #[trigger] r[j],
    ) by {
        if i < a.len() {
            assert(priority(r[i]) == 0);
        } else if i < a.len() + b.len() {
            assert(r[i] == b[i - a.len()]);
            assert(j >= a.len());
            if j < a.len() + b.len() {
                assert(r[j] == b[j - a.len()]);
            } else {
                assert(r[j] == c[j - a.len() - b.len()]);
            }
        } else {
            assert(r[i] == c[i - a.len() - b.len()]);
            assert(r[j] == c[j - a.len() - b.len()]);
        }
        assert(priority(r[j]) >= 0 && priority(r[j]) <= 2);
    }
    Seq::filter_distributes_over_add(a + b, c, has_priority(0));
    Seq::filter_distributes_over_add(a, b, has_priority(0));
    Seq::filter_distributes_over_add(a + b, c, has_priority(1));
    Seq::filter_distributes_over_add(a, b, has_priority(1));
    Seq::filter_distributes_over_add(a + b, c, has_priority(2));
    Seq::filter_distributes_over_add(a, b, has_priority(2));
    lemma_filter_all(a, has_priority(0));
    lemma_filter_none(a, has_priority(1));
    lemma_filter_none(a, has_priority(2));
    lemma_filter_none(b, has_priority(0));
    lemma_filter_all(b, has_priority(1));
    lemma_filter_none(b, has_priority(2));
    lemma_filter_none(c, has_priority(0));
    lemma_filter_none(c, has_priority(1));
    lemma_filter_all(c, has_priority(2));
    assert(r.filter(has_priority(0)) =~= a);
    assert(r.filter(has_priority(1)) =~= b);
    assert(r.filter(has_priority(2)) =~= c);
    lemma_partition_len(bs);
}

proof fn lemma_partition_len(bs: Seq<Block>)
    ensures
        bs.filter(has_priority(0)).len() + bs.filter(has_priority(1)).len() + bs.filter(
            has_priority(2),
        ).len() == bs.len(),
    decreases bs.len(),
{
    reveal(Seq::filter);
    if bs.len() > 0 {
        lemma_partition_len(bs.drop_last());
    }
}

/// Whether `b` opens with the stream marker.
pub open spec fn is_flac(b: Seq<u8>) -> bool {
    b.len() >= 4 && b.subrange(0, 4) == magic()
}

/// Where the metadata that starts at `pos` ends: after the block with the last-block flag,
/// or at the end of `b` where a header is cut short or a block runs past the end.
pub open spec fn metadata_end(b: Seq<u8>, pos: int) -> int
    decreases b.len() - pos,
{
    if pos < 0 || pos + 4 > b.len() {
        pos
    } else {
        let next = pos + 4 + declared_len(b, pos);
        if next >= b.len() {
            b.len() as int
        } else if b[pos] >= 128 {
            next
        } else {
            metadata_end(b, next)
        }
    }
}

/// Whether `b` opens with the stream marker.
pub fn is_candidate(b: &[u8]) -> (r: bool)
    ensures
        r == is_flac(b@),
{
    if b.len() < 4 {
        return false;
    }
    let r = b[0] == 0x66u8 && b[1] == 0x4Cu8 && b[2] == 0x61u8 && b[3] == 0x43u8;
    proof {
        if r {
            assert(b@.subrange(0, 4) =~= magic());
        } else {
            assert(!(b@.subrange(0, 4) =~= magic()));
            assert(b@.subrange(0, 4) != magic());
        }
    }
    r
}

/// The bytes that follow the metadata: the audio frames. Only block headers are read. Where
/// `b` does not open with the stream marker, all of it; where a header is cut short, all
/// that follows the last whole block; where a block runs past the end, nothing.
pub fn skip_metadata(b: &[u8]) -> (r: Vec<u8>)
    ensures
        !is_flac(b@) ==> r@ == b@,
        is_flac(b@) ==> r@ == b@.subrange(metadata_end(b@, 4), b@.len() as int),
{
    let n = b.len();
    if !is_candidate(b) {
        return crate::bytes::copy_range(b, 0, n);
    }
    let mut pos: usize = 4;
    let mut done = false;
    while !done
        invariant
            4 <= pos <= n == b@.len(),
            !done ==> metadata_end(b@, 4) == metadata_end(b@, pos as int),
            done ==> metadata_end(b@, 4) == pos,
        decreases n - pos + (if done { 0int } else { 1int }),
    {
        if n - pos < 4 {
            done = true;
        } else {
            let len = crate::bytes::read_be24(b, pos + 1);
            let last = b[pos] >= 128;
            if n - pos - 4 <= len as usize {
                pos = n;
                done = true;
            } else {
                pos = pos + 4 + len as usize;
                done = last;
            }
        }
    }
    crate::bytes::copy_range(b, pos, n)
}

/// Block by block, `ds` and `bs` have the same type codes and the same payload bytes.
pub open spec fn same_blocks(ds: Seq<Block>, bs: Seq<Block>) -> bool {
    &&& ds.len() == bs.len()
    &&& forall|i: int|
        0 <= i < bs.len() ==> block_code(#[trigger] ds[i]) == block_code(bs[i]) && payload_bytes(
            ds[i],
        ) == payload_bytes(bs[i])
}

/// Whether `bs` is a non-empty sequence of blocks that decoding their bytes gives back.
pub open spec fn well_formed(bs: Seq<Block>) -> bool {
    bs.len() >= 1 && forall|i: int| 0 <= i < bs.len() ==> decodable(#[trigger] bs[i])
}

/// Decodes the blocks that follow the stream marker, up to and including the one with the
/// last-block flag, and gives where they end.
pub fn decode_blocks(b: &[u8]) -> (r: Result<(Vec<Block>, usize), TagError>)
    ensures
        r is Err ==> r == Err::<(Vec<Block>, usize), TagError>(TagError::FormatError),
        !is_flac(b@) ==> r is Err,
        is_flac(b@) && b@.len() < 8 ==> r is Err,
        is_flac(b@) && b@.len() >= 8 && 8 + declared_len(b@, 4) > b@.len() ==> r is Err,
        r matches Ok((bs, end)) ==> {
            &&& is_flac(b@)
            &&& bs@.len() >= 1
            &&& end <= b@.len()
            &&& laid_out(b@, 4, bs@, end as int, true)
            &&& forall|i: int| 0 <= i < bs@.len() ==> encodable(#[trigger] bs@[i])
            &&& forall|i: int| 0 <= i < bs@.len() ==> canonical(#[trigger] bs@[i])
        },
        forall|bs: Seq<Block>, rest: Seq<u8>|
            well_formed(bs) && #[trigger] (tag_bytes(bs) + rest) == b@ ==> (r matches Ok((ds, end))
                && end == tag_bytes(bs).len() && same_blocks(ds@, bs) && tag_bytes(ds@) == tag_bytes(
                bs,
            )),
{
    let ghost found = exists|bs: Seq<Block>, rest: Seq<u8>|
        well_formed(bs) && #[trigger] (tag_bytes(bs) + rest) == b@;
    let ghost (wb, wr) = choose|bs: Seq<Block>, rest: Seq<u8>|
        well_formed(bs) && #[trigger] (tag_bytes(bs) + rest) == b@;
    let ghost wlen = wb.len() as int;
    proof {
        if found {
            assert(b@.subrange(0, 4) =~= magic());
        }
    }
    if !is_candidate(b) {
        return Err(TagError::FormatError);
    }
    let n = b.len();
    let mut blocks: Vec<Block> = Vec::new();
    let mut pos: usize = 4;
    let mut done = false;
    while !done
        invariant
            4 <= pos <= n == b@.len(),
            found == exists|bs: Seq<Block>, rest: Seq<u8>|
                well_formed(bs) && #[trigger] (tag_bytes(bs) + rest) == b@,
            found ==> {
                &&& well_formed(wb)
                &&& tag_bytes(wb) + wr == b@
                &&& wlen == wb.len()
                &&& blocks@.len() <= wlen
                &&& pos == 4 + blocks_prefix(wb, blocks@.len() as int).len()
                &&& (done <==> blocks@.len() == wlen)
            },
            is_flac(b@),
            laid_out(b@, 4, blocks@, pos as int, done),
            done ==> blocks@.len() >= 1,
            blocks@.len() == 0 ==> pos == 4,
            blocks@.len() > 0 ==> 8 + declared_len(b@, 4) <= n,
            forall|i: int| 0 <= i < blocks@.len() ==> encodable(#[trigger] blocks@[i]),
            forall|i: int| 0 <= i < blocks@.len() ==> canonical(#[trigger] blocks@[i]),
        decreases n - pos + (if done { 0int } else { 1int }),
    {
        let ghost k = blocks@.len() as int;
        proof {
            if found {
                lemma_block_at(wb, wr, k);
                assert(decodable(wb[k]));
            }
        }
        let (last, blk, next) = match decode_block(b, pos) {
            Ok(d) => d,
            Err(_) => return Err(TagError::FormatError),
        };
        proof {
            lemma_laid_out_push(b@, 4, blocks@, pos as int, blk, next as int, last);
        }
        blocks.push(blk);
        pos = next;
        done = last;
    }
    proof {
        if found {
            assert forall|bs: Seq<Block>, rest: Seq<u8>|
                well_formed(bs) && #[trigger] (tag_bytes(bs) + rest) == b@ implies same_blocks(
                blocks@,
                bs,
            ) && tag_bytes(blocks@) == tag_bytes(bs) by {
                lemma_agree_decoded(b@, bs, rest, blocks@, pos as int);
            }
            lemma_agree_decoded(b@, wb, wr, blocks@, pos as int);
            assert(blocks_prefix(wb, wlen) == blocks_prefix(wb, wb.len() as int));
        }
    }
    Ok((blocks, pos))
}

/// Blocks decoded from the bytes of a well-formed tag encode as that tag does.
proof fn lemma_agree_decoded(b: Seq<u8>, bs: Seq<Block>, rest: Seq<u8>, ds: Seq<Block>, end: int)
    requires
        well_formed(bs),
        tag_bytes(bs) + rest == b,
        laid_out(b, 4, ds, end, true),
        ds.len() >= 1,
        forall|i: int| 0 <= i < ds.len() ==> encodable(#[trigger] ds[i]),
        forall|i: int| 0 <= i < ds.len() ==> canonical(#[trigger] ds[i]),
    ensures
        ds.len() == bs.len(),
        tag_bytes(ds) == tag_bytes(bs),
        same_blocks(ds, bs),
{
    lemma_suffix_laid_out(bs, b, rest, 0);
    assert(bs.subrange(0, bs.len() as int) =~= bs);
    assert(blocks_prefix(bs, 0).len() == 0);
    assert forall|i: int| 0 <= i < bs.len() implies encodable(#[trigger] bs[i]) && canonical(bs[i]) by {
        assert(decodable(bs[i]));
    }
    lemma_layouts_agree(b, 4, bs, 4 + blocks_prefix(bs, bs.len() as int).len() as int, ds, end);
    lemma_prefix_congruent(bs, ds, bs.len() as int);
    assert forall|i: int| 0 <= i < bs.len() implies block_code(#[trigger] ds[i]) == block_code(bs[i])
        && payload_bytes(ds[i]) == payload_bytes(bs[i]) by {
        let f = i == bs.len() - 1;
        let x = block_bytes(f, bs[i]);
        let y = block_bytes(f, ds[i]);
        assert(x.subrange(4, x.len() as int) =~= payload_bytes(bs[i]));
        assert(y.subrange(4, y.len() as int) =~= payload_bytes(ds[i]));
    }
}

/// A FLAC metadata tag: the blocks between the stream marker and the audio frames.
pub struct FlacTag {
    /// The location from which the blocks were read.
    pub path: Option<String>,
    /// The metadata blocks, in order.
    pub blocks: Vec<Block>,
}

impl FlacTag {
    /// A tag with no blocks and no location.
    pub fn new() -> (r: FlacTag)
        ensures
            r.blocks@.len() == 0,
            r.path is None,
    {
        FlacTag { path: None, blocks: Vec::new() }
    }

    /// Appends a block.
    pub fn add_block(&mut self, block: Block)
        ensures
            final(self).blocks@ == old(self).blocks@.push(block),
            final(self).path == old(self).path,
    {
        self.blocks.push(block);
    }

    /// The blocks, in order.
    pub fn blocks(&self) -> (r: &Vec<Block>)
        ensures
            r@ == self.blocks@,
    {
        &self.blocks
    }

    /// The blocks, for changing in place.
    pub fn blocks_mut(&mut self) -> (r: &mut Vec<Block>)
        ensures
            *r == old(self).blocks,
            final(self).blocks == *final(r),
            final(self).path == old(self).path,
    {
        &mut self.blocks
    }

    /// The blocks with type code `block_type`, in order.
    pub fn blocks_with_type(&self, block_type: u8) -> (r: Vec<&Block>)
        ensures
            r@.len() == self.blocks@.filter(has_code(block_type)).len(),
            forall|i: int|
                0 <= i < r@.len() ==> *r@[i] == self.blocks@.filter(has_code(block_type))[i],
    {
        let ghost s = self.blocks@;
        let mut out: Vec<&Block> = Vec::new();
        let mut i: usize = 0;
        while i < self.blocks.len()
            invariant
                i <= s.len(),
                s == self.blocks@,
                out@.len() == s.subrange(0, i as int).filter(has_code(block_type)).len(),
                forall|j: int|
                    0 <= j < out@.len() ==> *out@[j] == s.subrange(0, i as int).filter(
                        has_code(block_type),
                    )[j],
            decreases s.len() - i,
        {
            proof {
                lemma_filter_step(s, i as int, has_code(block_type));
            }
            if self.blocks[i].block_type() == block_type {
                out.push(&self.blocks[i]);
            }
            i = i + 1;
        }
        assert(s.subrange(0, i as int) =~= s);
        out
    }

    /// Removes the blocks with type code `block_type`, keeping the others in order.
    pub fn remove_blocks_with_type(&mut self, block_type: u8)
        ensures
            final(self).blocks@ == old(self).blocks@.filter(lacks_code(block_type)),
            final(self).path == old(self).path,
    {
        let ghost s = self.blocks@;
        let mut rest: Vec<Block> = Vec::new();
        core::mem::swap(&mut rest, &mut self.blocks);
        let ghost mut i: int = 0;
        while rest.len() > 0
            invariant
                0 <= i <= s.len(),
                rest@ == s.subrange(i, s.len() as int),
                self.blocks@ == s.subrange(0, i).filter(lacks_code(block_type)),
                self.path == old(self).path,
            decreases rest@.len(),
        {
            proof {
                lemma_filter_step(s, i, lacks_code(block_type));
            }
            let b = rest.remove(0);
            if b.block_type() != block_type {
                self.blocks.push(b);
            }
            proof {
                i = i + 1;
                assert(rest@ =~= s.subrange(i, s.len() as int));
            }
        }
        assert(s.subrange(0, i) =~= s);
    }

    /// Replaces all padding blocks by one at the end whose size is the sum of theirs. The
    /// other blocks keep their order.
    pub fn aggregate_padding(&mut self)
        requires
            padding_total(old(self).blocks@) <= u32::MAX,
        ensures
            final(self).blocks@ == aggregated(old(self).blocks@),
            final(self).path == old(self).path,
    {
        let ghost s = self.blocks@;
        let mut total: u32 = 0;
        let mut i: usize = 0;
        while i < self.blocks.len()
            invariant
                i <= s.len(),
                s == self.blocks@,
                padding_total(s) <= u32::MAX,
                total == padding_total(s.subrange(0, i as int)),
            decreases s.len() - i,
        {
            proof {
                assert(s.subrange(0, i + 1).drop_last() =~= s.subrange(0, i as int));
                lemma_padding_prefix(s, i + 1);
            }
            match &self.blocks[i] {
                Block::PaddingBlock(size) => total = total + *size,
                _ => {},
            }
            i = i + 1;
        }
        assert(s.subrange(0, i as int) =~= s);
        self.remove_blocks_with_type(PADDING);
        self.add_block(Block::PaddingBlock(total));
    }

    /// Orders the blocks stably by rank: stream info first, padding last.
    fn sort_blocks(&mut self)
        ensures
            final(self).blocks@ == by_priority(old(self).blocks@),
            final(self).path == old(self).path,
    {
        let ghost s = self.blocks@;
        let mut rest: Vec<Block> = Vec::new();
        core::mem::swap(&mut rest, &mut self.blocks);
        let mut first: Vec<Block> = Vec::new();
        let mut middle: Vec<Block> = Vec::new();
        let mut last: Vec<Block> = Vec::new();
        let ghost mut i: int = 0;
        while rest.len() > 0
            invariant
                0 <= i <= s.len(),
                rest@ == s.subrange(i, s.len() as int),
                first@ == s.subrange(0, i).filter(has_priority(0)),
                middle@ == s.subrange(0, i).filter(has_priority(1)),
                last@ == s.subrange(0, i).filter(has_priority(2)),
                self.blocks@.len() == 0,
                self.path == old(self).path,
            decreases rest@.len(),
        {
            proof {
                lemma_filter_step(s, i, has_priority(0));
                lemma_filter_step(s, i, has_priority(1));
                lemma_filter_step(s, i, has_priority(2));
            }
            let b = rest.remove(0);
            match b {
                Block::StreamInfoBlock(_) => first.push(b),
                Block::PaddingBlock(_) => last.push(b),
                _ => middle.push(b),
            }
            proof {
                i = i + 1;
                assert(rest@ =~= s.subrange(i, s.len() as int));
            }
        }
        assert(s.subrange(0, i) =~= s);
        reveal(by_priority);
        first.append(&mut middle);
        first.append(&mut last);
        self.blocks = first;
    }

    /// Reads a tag from the bytes of a stream: the marker, then blocks up to the one with the
    /// last-block flag. Fails where the marker is missing, a block runs past the end, or a
    /// payload is malformed.
    pub fn read_from(b: &[u8]) -> (r: Result<FlacTag, TagError>)
        ensures
            r is Err ==> r == Err::<FlacTag, TagError>(TagError::FormatError),
            !is_flac(b@) ==> r is Err,
            is_flac(b@) && b@.len() >= 8 && 8 + declared_len(b@, 4) > b@.len() ==> r is Err,
            r matches Ok(t) ==> {
                &&& is_flac(b@)
                &&& t.path is None
                &&& t.blocks@.len() >= 1
                &&& exists|end: int| laid_out(b@, 4, t.blocks@, end, true)
                &&& forall|i: int| 0 <= i < t.blocks@.len() ==> encodable(#[trigger] t.blocks@[i])
                &&& forall|i: int| 0 <= i < t.blocks@.len() ==> canonical(#[trigger] t.blocks@[i])
            },
            forall|bs: Seq<Block>, rest: Seq<u8>|
                well_formed(bs) && #[trigger] (tag_bytes(bs) + rest) == b@ ==> (r matches Ok(t)
                    && same_blocks(t.blocks@, bs) && tag_bytes(t.blocks@) == tag_bytes(bs)),
    {
        let (blocks, end) = match decode_blocks(b) {
            Ok(d) => d,
            Err(_) => return Err(TagError::FormatError),
        };
        let ghost bv = blocks@;
        let t = FlacTag { path: None, blocks };
        assert(t.blocks@ == bv);
        assert(laid_out(b@, 4, t.blocks@, end as int, true));
        Ok(t)
    }

    /// The sum of the padding sizes, if it fits in 32 bits.
    fn padding_sum(&self) -> (r: Option<u32>)
        ensures
            r is Some <==> padding_total(self.blocks@) <= u32::MAX,
            r matches Some(t) ==> t == padding_total(self.blocks@),
    {
        let ghost s = self.blocks@;
        let mut total: u64 = 0;
        let mut i: usize = 0;
        while i < self.blocks.len()
            invariant
                i <= s.len(),
                s == self.blocks@,
                total == padding_total(s.subrange(0, i as int)),
                total <= u32::MAX,
            decreases s.len() - i,
        {
            proof {
                assert(s.subrange(0, i + 1).drop_last() =~= s.subrange(0, i as int));
            }
            match &self.blocks[i] {
                Block::PaddingBlock(size) => total = total + *size as u64,
                _ => {},
            }
            i = i + 1;
            if total > 0xFFFF_FFFFu64 {
                proof {
                    lemma_padding_prefix(s, i as int);
                }
                return None;
            }
        }
        assert(s.subrange(0, i as int) =~= s);
        Some(total as u32)
    }

    /// Writes the tag: merges the padding, orders the blocks by rank, then gives the marker
    /// and the blocks, the last one flagged. Fails, leaving the blocks as they were, where the
    /// padding sizes sum past 32 bits; fails after the reordering where a block cannot be
    /// encoded.
    pub fn write_to(&mut self) -> (r: Result<Vec<u8>, TagError>)
        ensures
            r is Err ==> r == Err::<Vec<u8>, TagError>(TagError::FormatError),
            final(self).path == old(self).path,
            padding_total(old(self).blocks@) > u32::MAX ==> r is Err && final(self).blocks@ == old(
                self,
            ).blocks@,
            padding_total(old(self).blocks@) <= u32::MAX ==> {
                &&& final(self).blocks@ == normalized(old(self).blocks@)
                &&& (r is Ok <==> forall|i: int|
                    0 <= i < final(self).blocks@.len() ==> encodable(#[trigger] final(self).blocks@[i]))
                &&& (r matches Ok(out) ==> out@ == tag_bytes(final(self).blocks@))
            },
    {
        if self.padding_sum().is_none() {
            return Err(TagError::FormatError);
        }
        self.aggregate_padding();
        self.sort_blocks();
        let ghost bs = self.blocks@;
        let mut out: Vec<u8> = Vec::new();
        out.push(0x66u8);
        out.push(0x4Cu8);
        out.push(0x61u8);
        out.push(0x43u8);
        assert(out@ =~= magic());
        let n = self.blocks.len();
        let mut i: usize = 0;
        while i < n
            invariant
                i <= n == bs.len(),
                bs == self.blocks@,
                out@ == magic() + blocks_prefix(bs, i as int),
                forall|j: int| 0 <= j < i ==> encodable(#[trigger] bs[j]),
                self.path == old(self).path,
                padding_total(old(self).blocks@) <= u32::MAX,
                bs == normalized(old(self).blocks@),
            decreases n - i,
        {
            let res = encode_block(i == n - 1, &self.blocks[i], &mut out);
            if res.is_err() {
                return Err(TagError::FormatError);
            }
            i = i + 1;
            assert(out@ =~= magic() + blocks_prefix(bs, i as int));
        }
        Ok(out)
    }
}

} // verus!
