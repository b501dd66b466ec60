use vstd::prelude::*;
use crate::block::{Block, block_code, canonical, encodable, payload_bytes, PADDING};
use crate::bytes::{be24, lemma_be24_injective};
use crate::codec::{block_bytes, decodable, header_bytes};
use crate::tag::{
    aggregated, blocks_prefix, by_priority, has_priority, lacks_code, laid_out, normalized,
    padding_size, padding_total, priority, tag_bytes, well_formed, lemma_write_order, lemma_filter_all,
    lemma_filter_holds, lemma_filter_none,
};

verus! {

/// Two blocks that lie at the same place in the same bytes, with the same flag, encode alike.
proof fn lemma_same_place(b: Seq<u8>, pos: int, fx: bool, x: Block, fy: bool, y: Block)
    requires
        encodable(x) && canonical(x),
        encodable(y) && canonical(y),
        0 <= pos,
        pos + 4 + payload_bytes(x).len() <= b.len(),
        pos + 4 + payload_bytes(y).len() <= b.len(),
        header_bytes(fx, x) == b.subrange(pos, pos + 4),
        header_bytes(fy, y) == b.subrange(pos, pos + 4),
        x is PaddingBlock || payload_bytes(x) == b.subrange(pos + 4, pos + 4 + payload_bytes(x).len()),
        y is PaddingBlock || payload_bytes(y) == b.subrange(pos + 4, pos + 4 + payload_bytes(y).len()),
    ensures
        fx == fy,
        block_code(x) == block_code(y),
        payload_bytes(x).len() == payload_bytes(y).len(),
        block_bytes(fx, x) == block_bytes(fy, y),
        padding_size(x) == padding_size(y),
{
    let hx = header_bytes(fx, x);
    let hy = header_bytes(fy, y);
    assert(hx[0] == hy[0]);
    assert(fx == fy && block_code(x) == block_code(y));
    let lx = payload_bytes(x).len() as u32;
    let ly = payload_bytes(y).len() as u32;
    assert(hx.subrange(1, 4) =~= be24(lx));
    assert(hy.subrange(1, 4) =~= be24(ly));
    lemma_be24_injective(lx, ly);
    if x is PaddingBlock {
        assert(y is PaddingBlock);
        assert(payload_bytes(x) =~= payload_bytes(y));
    } else {
        assert(!(y is PaddingBlock));
    }
}

/// Two sequences of blocks that lie from the same place in the same bytes, each closed by
/// the last-block flag, encode alike block by block.
pub(crate) proof fn lemma_layouts_agree(b: Seq<u8>, pos: int, xs: Seq<Block>, e1: int, ys: Seq<Block>, e2: int)
    requires
        laid_out(b, pos, xs, e1, true),
        laid_out(b, pos, ys, e2, true),
        xs.len() >= 1,
        ys.len() >= 1,
        forall|i: int| 0 <= i < xs.len() ==> encodable(#[trigger] xs[i]) && canonical(xs[i]),
        forall|i: int| 0 <= i < ys.len() ==> encodable(#[trigger] ys[i]) && canonical(ys[i]),
    ensures
        xs.len() == ys.len(),
        forall|i: int|
            0 <= i < xs.len() ==> {
                &&& block_bytes(i == xs.len() - 1, #[trigger] xs[i]) == block_bytes(
                    i == xs.len() - 1,
                    ys[i],
                )
                &&& block_code(xs[i]) == block_code(ys[i])
                &&& padding_size(xs[i]) == padding_size(ys[i])
            },
    decreases xs.len(),
{
    let x = xs[0];
    let y = ys[0];
    lemma_same_place(b, pos, xs.len() == 1, x, ys.len() == 1, y);
    if xs.len() > 1 {
        let next = pos + 4 + payload_bytes(x).len();
        let xr = xs.drop_first();
        let yr = ys.drop_first();
        assert forall|i: int| 0 <= i < xr.len() implies encodable(#[trigger] xr[i]) && canonical(
            xr[i],
        ) by {
            assert(xr[i] == xs[i + 1]);
        }
        assert forall|i: int| 0 <= i < yr.len() implies encodable(#[trigger] yr[i]) && canonical(
            yr[i],
        ) by {
            assert(yr[i] == ys[i + 1]);
        }
        lemma_layouts_agree(b, next, xr, e1, yr, e2);
        assert forall|i: int| 0 <= i < xs.len() implies {
            &&& block_bytes(i == xs.len() - 1, #[trigger] xs[i]) == block_bytes(
                i == xs.len() - 1,
                ys[i],
            )
            &&& block_code(xs[i]) == block_code(ys[i])
            &&& padding_size(xs[i]) == padding_size(ys[i])
        } by {
            if i > 0 {
                assert(xs[i] == xr[i - 1]);
                assert(ys[i] == yr[i - 1]);
            }
        }
    }
}

pub(crate) proof fn lemma_prefix_grows(n: Seq<Block>, k: int, m: int)
    requires
        0 <= k <= m,
    ensures
        blocks_prefix(n, m).len() >= blocks_prefix(n, k).len(),
        blocks_prefix(n, m).subrange(0, blocks_prefix(n, k).len() as int) == blocks_prefix(n, k),
    decreases m - k,
{
    if k < m {
        lemma_prefix_grows(n, k, m - 1);
        let a = blocks_prefix(n, m - 1);
        assert(blocks_prefix(n, m).subrange(0, a.len() as int) =~= a);
        assert(blocks_prefix(n, m).subrange(0, blocks_prefix(n, k).len() as int) =~= a.subrange(
            0,
            blocks_prefix(n, k).len() as int,
        ));
    } else {
        assert(blocks_prefix(n, m).subrange(0, blocks_prefix(n, k).len() as int) =~= blocks_prefix(
            n,
            k,
        ));
    }
}

pub(crate) proof fn lemma_suffix_laid_out(n: Seq<Block>, b: Seq<u8>, rest: Seq<u8>, k: int)
    requires
        b == tag_bytes(n) + rest,
        0 <= k <= n.len(),
        forall|i: int| 0 <= i < n.len() ==> encodable(#[trigger] n[i]),
    ensures
        laid_out(
            b,
            4 + blocks_prefix(n, k).len() as int,
            n.subrange(k, n.len() as int),
            4 + blocks_prefix(n, n.len() as int).len() as int,
            true,
        ),
    decreases n.len() - k,
{
    let len = n.len() as int;
    if k < len {
        lemma_suffix_laid_out(n, b, rest, k + 1);
        lemma_prefix_grows(n, k + 1, len);
        let s = n.subrange(k, len);
        assert(s.drop_first() =~= n.subrange(k + 1, len));
        assert(s[0] == n[k]);
        let pre = blocks_prefix(n, k);
        let bb = block_bytes(k == len - 1, n[k]);
        let pl = pre.len() as int;
        let bl = bb.len() as int;
        let pos = 4 + pl;
        assert(blocks_prefix(n, k + 1) == pre + bb);
        let all = blocks_prefix(n, len);
        let al = all.len() as int;
        assert(b.subrange(4, 4 + al) =~= all);
        assert(b.subrange(pos, pos + bl) =~= bb) by {
            assert forall|j: int| 0 <= j < bl implies b.subrange(pos, pos + bl)[j] == bb[j] by {
                assert(all.subrange(0, pl + bl)[pl + j] == (pre + bb)[pl + j]);
                assert(b[pos + j] == all[pl + j]);
            }
        }
        assert(b.subrange(pos, pos + 4) =~= bb.subrange(0, 4));
        assert(b.subrange(pos + 4, pos + bl) =~= bb.subrange(4, bl));
        assert(bb.subrange(0, 4) =~= header_bytes(k == len - 1, n[k]));
        assert(bb.subrange(4, bl) =~= payload_bytes(n[k]));
    } else {
        assert(n.subrange(k, len) =~= Seq::<Block>::empty());
    }
}

/// In the bytes of a tag, block `k` lies right after those before it.
pub(crate) proof fn lemma_block_at(n: Seq<Block>, rest: Seq<u8>, k: int)
    requires
        0 <= k < n.len(),
    ensures
        ({
            let b = tag_bytes(n) + rest;
            let pos = 4 + blocks_prefix(n, k).len() as int;
            let bb = block_bytes(k == n.len() - 1, n[k]);
            &&& blocks_prefix(n, k + 1).len() == blocks_prefix(n, k).len() + bb.len()
            &&& pos + bb.len() <= b.len()
            &&& b.subrange(pos, pos + bb.len() as int) == bb
        }),
{
    let len = n.len() as int;
    let b = tag_bytes(n) + rest;
    lemma_prefix_grows(n, k + 1, len);
    let pre = blocks_prefix(n, k);
    let bb = block_bytes(k == len - 1, n[k]);
    let pl = pre.len() as int;
    let bl = bb.len() as int;
    let pos = 4 + pl;
    assert(blocks_prefix(n, k + 1) == pre + bb);
    let all = blocks_prefix(n, len);
    assert(b.subrange(4, 4 + all.len() as int) =~= all);
    assert(b.subrange(pos, pos + bl) =~= bb) by {
        assert forall|j: int| 0 <= j < bl implies b.subrange(pos, pos + bl)[j] == bb[j] by {
            assert(all.subrange(0, pl + bl)[pl + j] == (pre + bb)[pl + j]);
            assert(b[pos + j] == all[pl + j]);
        }
    }
}

pub(crate) proof fn lemma_prefix_congruent(xs: Seq<Block>, ys: Seq<Block>, k: int)
    requires
        xs.len() == ys.len(),
        0 <= k <= xs.len(),
        forall|i: int|
            0 <= i < xs.len() ==> block_bytes(i == xs.len() - 1, #[trigger] xs[i]) == block_bytes(
                i == xs.len() - 1,
                ys[i],
            ),
    ensures
        blocks_prefix(xs, k) == blocks_prefix(ys, k),
    decreases k,
{
    if k > 0 {
        lemma_prefix_congruent(xs, ys, k - 1);
        assert(block_bytes(k - 1 == xs.len() - 1, xs[k - 1]) == block_bytes(
            k - 1 == xs.len() - 1,
            ys[k - 1],
        ));
    }
}

proof fn lemma_filter_keeps(s: Seq<Block>, p: spec_fn(Block) -> bool, q: spec_fn(Block) -> bool)
    requires
        forall|i: int| 0 <= i < s.len() ==> q(#[trigger] s[i]),
    ensures
        forall|i: int| 0 <= i < s.filter(p).len() ==> q(#[trigger] s.filter(p)[i]),
    decreases s.len(),
{
    if s.len() > 0 {
        let t = s.drop_last();
        assert forall|i: int| 0 <= i < t.len() implies q(#[trigger] t[i]) by {
            assert(t[i] == s[i]);
        }
        lemma_filter_keeps(t, p, q);
        lemma_filter_last(s, p);
        let sub = t.filter(p);
        assert(q(s.last()));
        assert forall|i: int| 0 <= i < s.filter(p).len() implies q(#[trigger] s.filter(p)[i]) by {
            if i < sub.len() {
                assert(s.filter(p)[i] == sub[i]);
            }
        }
    } else {
        reveal(Seq::filter);
    }
}

proof fn lemma_filter_last(s: Seq<Block>, p: spec_fn(Block) -> bool)
    requires
        s.len() > 0,
    ensures
        s.filter(p) == if p(s.last()) {
            s.drop_last().filter(p).push(s.last())
        } else {
            s.drop_last().filter(p)
        },
{
    reveal(Seq::filter);
}

/// Whether the blocks are in rank order.
pub open spec fn rank_sorted(s: Seq<Block>) -> bool {
    forall|i: int, j: int|
        0 <= i < j < s.len() ==> priority(#[trigger] s[i]) <= priority(#[trigger] s[j])
}

/// How many blocks of `s` rank below `p`.
pub open spec fn below(s: Seq<Block>, p: int) -> int
    decreases s.len(),
{
    if s.len() == 0 {
        0
    } else if priority(s.last()) < p {
        below(s.drop_last(), p) + 1
    } else {
        below(s.drop_last(), p)
    }
}

proof fn lemma_below_bounds(s: Seq<Block>, p: int)
    ensures
        0 <= below(s, p) <= below(s, p + 1) <= s.len(),
        p <= 0 ==> below(s, p) == 0,
        p >= 2 ==> below(s, p + 1) == s.len(),
    decreases s.len(),
{
    if s.len() > 0 {
        lemma_below_bounds(s.drop_last(), p);
    }
}

proof fn lemma_below_all(s: Seq<Block>, p: int)
    requires
        forall|i: int| 0 <= i < s.len() ==> priority(#[trigger] s[i]) < p,
    ensures
        below(s, p) == s.len(),
    decreases s.len(),
{
    if s.len() > 0 {
        let t = s.drop_last();
        assert forall|i: int| 0 <= i < t.len() implies priority(#[trigger] t[i]) < p by {
            assert(t[i] == s[i]);
        }
        lemma_below_all(t, p);
    }
}

/// In blocks in rank order, those of rank `p` form one run.
proof fn lemma_rank_run(s: Seq<Block>, p: int)
    requires
        rank_sorted(s),
    ensures
        0 <= below(s, p) <= below(s, p + 1) <= s.len(),
        s.filter(has_priority(p)) == s.subrange(below(s, p), below(s, p + 1)),
    decreases s.len(),
{
    lemma_below_bounds(s, p);
    if s.len() == 0 {
        reveal(Seq::filter);
        assert(s.subrange(0, 0) =~= s.filter(has_priority(p)));
    } else {
        let t = s.drop_last();
        let x = s.last();
        let q = priority(x);
        assert forall|i: int, j: int| 0 <= i < j < t.len() implies priority(#[trigger] t[i])
            <= priority(#[trigger] t[j]) by {
            assert(t[i] == s[i] && t[j] == s[j]);
        }
        lemma_rank_run(t, p);
        lemma_filter_last(s, has_priority(p));
        lemma_below_bounds(t, p);
        assert forall|i: int| 0 <= i < t.len() implies priority(#[trigger] t[i]) < q + 1 by {
            assert(t[i] == s[i]);
            assert(priority(s[i]) <= priority(s[s.len() - 1]));
        }
        lemma_below_all(t, q + 1);
        if q == p {
            assert(t.subrange(below(t, p), below(t, p + 1)).push(x) =~= s.subrange(
                below(s, p),
                below(s, p + 1),
            ));
        } else if q > p {
            assert(t.subrange(below(t, p), below(t, p + 1)) =~= s.subrange(
                below(s, p),
                below(s, p + 1),
            ));
        } else {
            lemma_below_all(t, p);
            lemma_below_bounds(t, p);
            assert(t.subrange(below(t, p), below(t, p + 1)) =~= Seq::<Block>::empty());
            assert(s.subrange(below(s, p), below(s, p + 1)) =~= Seq::<Block>::empty());
        }
    }
}

/// Ordering blocks that are already in rank order leaves them as they are.
proof fn lemma_sorted_fixed(s: Seq<Block>)
    requires
        rank_sorted(s),
    ensures
        by_priority(s) == s,
{
    lemma_rank_run(s, 0);
    lemma_rank_run(s, 1);
    lemma_rank_run(s, 2);
    lemma_below_bounds(s, 0);
    lemma_below_bounds(s, 2);
    reveal(by_priority);
    assert(by_priority(s) =~= s);
}

/// Blocks that all differ from padding reserve no padding.
proof fn lemma_no_padding(s: Seq<Block>)
    requires
        forall|i: int| 0 <= i < s.len() ==> !(#[trigger] s[i] is PaddingBlock),
    ensures
        padding_total(s) == 0,
    decreases s.len(),
{
    if s.len() > 0 {
        assert(!(s.last() is PaddingBlock));
        lemma_no_padding(s.drop_last());
    }
}

/// The written order: all blocks but the last are of ranks below padding, the last is the one
/// padding block.
proof fn lemma_normalized_shape(bs: Seq<Block>)
    requires
        forall|i: int| 0 <= i < bs.len() ==> canonical(#[trigger] bs[i]),
    ensures
        normalized(bs).len() >= 1,
        normalized(bs).last() == Block::PaddingBlock(padding_total(bs) as u32),
        forall|i: int|
            0 <= i < normalized(bs).len() - 1 ==> block_code(#[trigger] normalized(bs)[i]) != PADDING,
        forall|i: int| 0 <= i < normalized(bs).len() ==> canonical(#[trigger] normalized(bs)[i]),
{
    let f = bs.filter(lacks_code(PADDING));
    let pad = Block::PaddingBlock(padding_total(bs) as u32);
    let agg = aggregated(bs);
    assert(agg == f.push(pad));
    let ok = |b: Block| canonical(b) && block_code(b) != PADDING;
    lemma_filter_keeps(bs, lacks_code(PADDING), |b: Block| canonical(b));
    lemma_filter_holds(bs, lacks_code(PADDING));
    assert forall|i: int| 0 <= i < f.len() implies ok(#[trigger] f[i]) by {
        assert(canonical(f[i]));
        assert(lacks_code(PADDING)(f[i]));
    }
    assert(agg.drop_last() =~= f);
    lemma_filter_last(agg, has_priority(0));
    lemma_filter_last(agg, has_priority(1));
    lemma_filter_last(agg, has_priority(2));
    let a = f.filter(has_priority(0));
    let b = f.filter(has_priority(1));
    lemma_filter_keeps(f, has_priority(0), ok);
    lemma_filter_keeps(f, has_priority(1), ok);
    assert forall|i: int| 0 <= i < f.len() implies !has_priority(2)(#[trigger] f[i]) by {
        assert(ok(f[i]));
    }
    lemma_filter_none(f, has_priority(2));
    let n = normalized(bs);
    reveal(by_priority);
    assert(n =~= (a + b).push(pad));
    assert forall|i: int| 0 <= i < n.len() - 1 implies ok(#[trigger] n[i]) by {
        if i < a.len() {
            assert(n[i] == a[i]);
        } else {
            assert(n[i] == b[i - a.len()]);
        }
    }
}

/// Blocks as decoding makes them, with the same type code, have the same rank.
proof fn lemma_rank_by_code(x: Block, y: Block)
    requires
        canonical(x),
        canonical(y),
        block_code(x) == block_code(y),
    ensures
        priority(x) == priority(y),
{
}

/// Blocks read back where a written order lay, type code for type code, are already in
/// written order.
proof fn lemma_read_in_order(n: Seq<Block>, ds: Seq<Block>)
    requires
        ds.len() == n.len(),
        n.len() >= 1,
        rank_sorted(n),
        n.last() is PaddingBlock,
        forall|i: int| 0 <= i < n.len() - 1 ==> block_code(#[trigger] n[i]) != PADDING,
        forall|i: int| 0 <= i < n.len() ==> canonical(#[trigger] n[i]),
        forall|i: int| 0 <= i < ds.len() ==> canonical(#[trigger] ds[i]),
        forall|i: int|
            0 <= i < n.len() ==> block_code(#[trigger] n[i]) == block_code(ds[i]) && padding_size(
                n[i],
            ) == padding_size(ds[i]),
    ensures
        normalized(ds) == ds,
        padding_total(ds) == padding_size(n.last()),
{
    let len = ds.len() as int;
    assert(rank_sorted(ds)) by {
        assert forall|i: int, j: int| 0 <= i < j < len implies priority(#[trigger] ds[i])
            <= priority(#[trigger] ds[j]) by {
            lemma_rank_by_code(n[i], ds[i]);
            lemma_rank_by_code(n[j], ds[j]);
            assert(priority(n[i]) <= priority(n[j]));
        }
    }
    lemma_sorted_fixed(ds);
    let t = ds.drop_last();
    assert forall|i: int| 0 <= i < t.len() implies !(#[trigger] t[i] is PaddingBlock) && lacks_code(
        PADDING,
    )(t[i]) by {
        assert(t[i] == ds[i]);
        assert(block_code(n[i]) != PADDING);
        assert(block_code(ds[i]) != PADDING);
    }
    lemma_no_padding(t);
    lemma_filter_all(t, lacks_code(PADDING));
    lemma_filter_last(ds, lacks_code(PADDING));
    assert(block_code(n[len - 1]) == PADDING);
    assert(block_code(ds[len - 1]) == PADDING);
    assert(ds.last() is PaddingBlock);
    assert(padding_size(ds.last()) == padding_size(n.last()));
    assert(padding_total(ds) == padding_total(t) + padding_size(ds.last()));
    assert(aggregated(ds) =~= ds);
    assert(normalized(ds) == by_priority(ds));
}

/// Reading back what writing a tag produced, then writing again, gives the same bytes: the
/// blocks read are already in written order, with one padding block last, so nothing moves.
/// Blocks of unknown type are taken to carry a code that has no decoder of its own.
pub proof fn lemma_round_trip(bs: Seq<Block>, rest: Seq<u8>, ds: Seq<Block>, end: int)
    requires
        forall|i: int| 0 <= i < bs.len() ==> canonical(#[trigger] bs[i]),
        padding_total(bs) <= u32::MAX,
        forall|i: int| 0 <= i < normalized(bs).len() ==> encodable(#[trigger] normalized(bs)[i]),
        laid_out(tag_bytes(normalized(bs)) + rest, 4, ds, end, true),
        ds.len() >= 1,
        forall|i: int| 0 <= i < ds.len() ==> encodable(#[trigger] ds[i]) && canonical(ds[i]),
    ensures
        padding_total(ds) <= u32::MAX,
        normalized(ds) == ds,
        tag_bytes(normalized(ds)) == tag_bytes(normalized(bs)),
{
    let n = normalized(bs);
    let b = tag_bytes(n) + rest;
    lemma_normalized_shape(bs);
    lemma_write_order(aggregated(bs));
    assert(rank_sorted(n));
    lemma_suffix_laid_out(n, b, rest, 0);
    assert(n.subrange(0, n.len() as int) =~= n);
    assert(blocks_prefix(n, 0).len() == 0);
    assert forall|i: int| 0 <= i < n.len() implies encodable(#[trigger] n[i]) && canonical(n[i]) by {
    }
    lemma_layouts_agree(b, 4, n, 4 + blocks_prefix(n, n.len() as int).len() as int, ds, end);
    lemma_read_in_order(n, ds);
    lemma_prefix_congruent(n, ds, ds.len() as int);
}

/// Writing a tag gives at least one block, so where each written block is one that decoding
/// gives back, what writing produced reads back (see `FlacTag::read_from`).
pub proof fn lemma_written_well_formed(bs: Seq<Block>)
    requires
        forall|i: int| 0 <= i < normalized(bs).len() ==> decodable(#[trigger] normalized(bs)[i]),
    ensures
        well_formed(normalized(bs)),
{
    lemma_write_order(aggregated(bs));
}

} // verus!
