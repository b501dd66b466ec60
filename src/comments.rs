use vstd::prelude::*;
use vstd::string::StringExecFns;
use crate::block::{Block, VorbisComment};
use crate::tag::{FlacTag, lemma_filter_step};

verus! {

/// Holds of the comments that are kept when those with key `key` are removed: all of them
/// where `any`, else only those whose value is `value`.
pub open spec fn kept(key: Seq<char>, value: Seq<char>, any: bool) -> spec_fn((String, String)) -> bool {
    |e: (String, String)| !(e.0@ == key && (any || e.1@ == value))
}

/// The values stored under `key` in a list of comments, in order.
pub open spec fn values_in(cs: Seq<(String, String)>, key: Seq<char>) -> Seq<Seq<char>>
    decreases cs.len(),
{
    if cs.len() == 0 {
        seq![]
    } else if cs.last().0@ == key {
        values_in(cs.drop_last(), key).push(cs.last().1@)
    } else {
        values_in(cs.drop_last(), key)
    }
}

/// The values stored under `key` in every comment block of `bs`, in block order.
pub open spec fn key_values(bs: Seq<Block>, key: Seq<char>) -> Seq<Seq<char>>
    decreases bs.len(),
{
    if bs.len() == 0 {
        seq![]
    } else {
        match bs.last() {
            Block::VorbisCommentBlock(v) => key_values(bs.drop_last(), key) + values_in(
                v.comments@,
                key,
            ),
            _ => key_values(bs.drop_last(), key),
        }
    }
}

/// The separator between joined values.
pub open spec fn separator() -> Seq<char> {
    seq![',', ' ']
}

/// The values joined with `", "`.
pub open spec fn joined(vals: Seq<Seq<char>>) -> Seq<char>
    decreases vals.len(),
{
    if vals.len() == 0 {
        seq![]
    } else if vals.len() == 1 {
        vals[0]
    } else {
        joined(vals.drop_last()) + separator() + vals.last()
    }
}

/// Whether block `b` is a comment block.
pub open spec fn is_comment_block(b: Block) -> bool {
    b is VorbisCommentBlock
}

/// Holds of the comment blocks.
pub open spec fn comment_block() -> spec_fn(Block) -> bool {
    |b: Block| b is VorbisCommentBlock
}

/// Whether `bs` holds a comment block.
pub open spec fn has_comment_block(bs: Seq<Block>) -> bool {
    exists|i: int| 0 <= i < bs.len() && is_comment_block(#[trigger] bs[i])
}

/// `f` is the index of the first comment block in `bs`.
pub open spec fn first_comment_at(bs: Seq<Block>, f: int) -> bool {
    &&& 0 <= f < bs.len()
    &&& is_comment_block(bs[f])
    &&& forall|j: int| 0 <= j < f ==> !is_comment_block(#[trigger] bs[j])
}

/// `after` is `before` with a comment block appended where `before` had none.
pub open spec fn with_comment_block(before: Seq<Block>, after: Seq<Block>) -> bool {
    if has_comment_block(before) {
        after == before
    } else {
        &&& after.len() == before.len() + 1
        &&& after.subrange(0, before.len() as int) == before
        &&& after.last() matches Block::VorbisCommentBlock(v) && v.vendor_string@.len() == 0
            && v.comments@.len() == 0
    }
}

/// `after` is `before` with, in every comment block, only the comments that `p` keeps.
pub open spec fn comments_filtered(
    before: Seq<Block>,
    after: Seq<Block>,
    p: spec_fn((String, String)) -> bool,
) -> bool {
    &&& after.len() == before.len()
    &&& forall|i: int|
        0 <= i < before.len() ==> match #[trigger] before[i] {
            Block::VorbisCommentBlock(v) => after[i] matches Block::VorbisCommentBlock(w)
                && w.vendor_string == v.vendor_string && w.comments@ == v.comments@.filter(p),
            _ => after[i] == before[i],
        }
}

/// `after` is `before` with every comment with key `key` removed from every comment block,
/// after an empty comment block was appended where there was none.
pub open spec fn key_removed(before: Seq<Block>, after: Seq<Block>, key: Seq<char>) -> bool {
    exists|mid: Seq<Block>|
        with_comment_block(before, mid) && comments_filtered(
            mid,
            after,
            kept(key, Seq::empty(), true),
        )
}

/// `after` is `before` with every comment with key `key` and value `value` removed from
/// every comment block, after an empty comment block was appended where there was none.
pub open spec fn value_removed(
    before: Seq<Block>,
    after: Seq<Block>,
    key: Seq<char>,
    value: Seq<char>,
) -> bool {
    exists|mid: Seq<Block>|
        with_comment_block(before, mid) && comments_filtered(mid, after, kept(key, value, false))
}

/// `after` is `before` where, in the first comment block (appended empty where there was
/// none), the comments with key `key` gave way to one comment per value of `values`, at the
/// end and in order.
pub open spec fn key_set(
    before: Seq<Block>,
    after: Seq<Block>,
    key: Seq<char>,
    values: Seq<String>,
) -> bool {
    exists|mid: Seq<Block>, f: int|
        with_comment_block(before, mid) && first_comment_at(mid, f) && {
            &&& after.len() == mid.len()
            &&& forall|i: int| 0 <= i < mid.len() && i != f ==> #[trigger] after[i] == mid[i]
            &&& mid[f] matches Block::VorbisCommentBlock(v)
            &&& after[f] matches Block::VorbisCommentBlock(w)
            &&& w.vendor_string == v.vendor_string
            &&& {
                let base = v.comments@.filter(kept(key, Seq::empty(), true));
                &&& w.comments@.len() == base.len() + values.len()
                &&& w.comments@.subrange(0, base.len() as int) == base
                &&& forall|k: int|
                    0 <= k < values.len() ==> (#[trigger] w.comments@[base.len() + k]).0@ == key
                        && w.comments@[base.len() + k].1 == values[k]
            }
        }
}

/// The keys of a list of comments, each once, in order of first appearance.
pub open spec fn distinct_keys(cs: Seq<(String, String)>) -> Seq<Seq<char>>
    decreases cs.len(),
{
    if cs.len() == 0 {
        seq![]
    } else if distinct_keys(cs.drop_last()).contains(cs.last().0@) {
        distinct_keys(cs.drop_last())
    } else {
        distinct_keys(cs.drop_last()).push(cs.last().0@)
    }
}

/// Each key of a list of comments, once, with its values joined with `", "`.
pub open spec fn key_summary(cs: Seq<(String, String)>) -> Seq<(Seq<char>, Seq<char>)> {
    distinct_keys(cs).map_values(|k: Seq<char>| (k, joined(values_in(cs, k))))
}

/// The key summaries of every comment block of `bs`, in block order.
pub open spec fn metadata(bs: Seq<Block>) -> Seq<(Seq<char>, Seq<char>)>
    decreases bs.len(),
{
    if bs.len() == 0 {
        seq![]
    } else {
        match bs.last() {
            Block::VorbisCommentBlock(v) => metadata(bs.drop_last()) + key_summary(v.comments@),
            _ => metadata(bs.drop_last()),
        }
    }
}

/// The views of a list of string pairs.
pub open spec fn pair_views(ps: Seq<(String, String)>) -> Seq<(Seq<char>, Seq<char>)> {
    ps.map_values(|e: (String, String)| (e.0@, e.1@))
}

proof fn lemma_distinct_keys(cs: Seq<(String, String)>, j: int)
    requires
        0 <= j < cs.len(),
    ensures
        distinct_keys(cs.subrange(0, j)).contains(cs[j].0@) <==> exists|k: int|
            0 <= k < j && (#[trigger] cs[k]).0@ == cs[j].0@,
    decreases j,
{
    if j > 0 {
        let t = cs.subrange(0, j);
        assert(t.drop_last() =~= cs.subrange(0, j - 1));
        lemma_distinct_keys_has(cs.subrange(0, j - 1), cs[j].0@);
        lemma_distinct_keys_has(t, cs[j].0@);
        if exists|k: int| 0 <= k < j && (#[trigger] cs[k]).0@ == cs[j].0@ {
            let k = choose|k: int| 0 <= k < j && (#[trigger] cs[k]).0@ == cs[j].0@;
            assert(t[k] == cs[k]);
        }
    } else {
        assert(cs.subrange(0, 0).len() == 0);
    }
}

proof fn lemma_distinct_keys_has(cs: Seq<(String, String)>, key: Seq<char>)
    ensures
        distinct_keys(cs).contains(key) <==> exists|k: int| 0 <= k < cs.len() && (#[trigger] cs[k]).0@ == key,
    decreases cs.len(),
{
    if cs.len() > 0 {
        let t = cs.drop_last();
        lemma_distinct_keys_has(t, key);
        if distinct_keys(t).contains(cs.last().0@) {
        } else {
            if distinct_keys(cs).contains(key) {
                let i = choose|i: int| 0 <= i < distinct_keys(cs).len() && distinct_keys(cs)[i] == key;
                if i < distinct_keys(t).len() {
                    assert(distinct_keys(t).contains(key));
                }
            }
            if cs.last().0@ == key {
                assert(distinct_keys(cs)[distinct_keys(cs).len() - 1] == key);
            }
        }
        if exists|k: int| 0 <= k < cs.len() && (#[trigger] cs[k]).0@ == key {
            let k = choose|k: int| 0 <= k < cs.len() && (#[trigger] cs[k]).0@ == key;
            if k < t.len() {
                assert(t[k] == cs[k]);
            } else {
                assert(cs[k] == cs.last());
            }
        }
        if exists|k: int| 0 <= k < t.len() && (#[trigger] t[k]).0@ == key {
            let k = choose|k: int| 0 <= k < t.len() && (#[trigger] t[k]).0@ == key;
            assert(cs[k] == t[k]);
        }
        if distinct_keys(t).contains(key) {
            let i = choose|i: int| 0 <= i < distinct_keys(t).len() && distinct_keys(t)[i] == key;
            assert(distinct_keys(cs)[i] == key);
        }
    }
}

/// The comments that are kept when those with key `key` (and, unless `any`, value `value`)
/// are removed, in order.
fn filter_comments(cs: Vec<(String, String)>, key: &String, value: &String, any: bool) -> (r: Vec<
    (String, String),
>)
    ensures
        r@ == cs@.filter(kept(key@, value@, any)),
{
    let ghost s = cs@;
    let mut rest = cs;
    let mut out: Vec<(String, String)> = Vec::new();
    let ghost mut i: int = 0;
    while rest.len() > 0
        invariant
            0 <= i <= s.len(),
            rest@ == s.subrange(i, s.len() as int),
            out@ == s.subrange(0, i).filter(kept(key@, value@, any)),
        decreases rest@.len(),
    {
        proof {
            lemma_filter_step(s, i, kept(key@, value@, any));
        }
        let e = rest.remove(0);
        if !(e.0 == *key && (any || e.1 == *value)) {
            out.push(e);
        }
        proof {
            i = i + 1;
            assert(rest@ =~= s.subrange(i, s.len() as int));
        }
    }
    assert(s.subrange(0, i) =~= s);
    out
}

impl FlacTag {
    /// References to the comment blocks, in order.
    pub fn vorbis_comments(&self) -> (r: Vec<&VorbisComment>)
        ensures
            r@.len() == self.blocks@.filter(comment_block()).len(),
            forall|k: int|
                0 <= k < r@.len() ==> Block::VorbisCommentBlock(*#[trigger] r@[k])
                    == self.blocks@.filter(comment_block())[k],
    {
        let ghost s = self.blocks@;
        let mut out: Vec<&VorbisComment> = Vec::new();
        let mut i: usize = 0;
        while i < self.blocks.len()
            invariant
                i <= s.len(),
                s == self.blocks@,
                out@.len() == s.subrange(0, i as int).filter(comment_block()).len(),
                forall|k: int|
                    0 <= k < out@.len() ==> Block::VorbisCommentBlock(*#[trigger] out@[k])
                        == s.subrange(0, i as int).filter(comment_block())[k],
            decreases s.len() - i,
        {
            proof {
                lemma_filter_step(s, i as int, comment_block());
            }
            match &self.blocks[i] {
                Block::VorbisCommentBlock(v) => {
                    out.push(v);
                },
                _ => {},
            }
            i = i + 1;
        }
        assert(s.subrange(0, i as int) =~= s);
        out
    }

    /// Appends an empty comment block where there is none, and gives the index of the first
    /// comment block.
    fn ensure_comment_block(&mut self) -> (r: usize)
        ensures
            with_comment_block(old(self).blocks@, final(self).blocks@),
            final(self).path == old(self).path,
            has_comment_block(final(self).blocks@),
            r < final(self).blocks@.len(),
            is_comment_block(final(self).blocks@[r as int]),
            forall|j: int| 0 <= j < r ==> !is_comment_block(#[trigger] final(self).blocks@[j]),
    {
        let mut i: usize = 0;
        while i < self.blocks.len()
            invariant
                i <= self.blocks@.len(),
                forall|j: int| 0 <= j < i ==> !is_comment_block(#[trigger] self.blocks@[j]),
            decreases self.blocks@.len() - i,
        {
            if let Block::VorbisCommentBlock(_) = &self.blocks[i] {
                assert(is_comment_block(self.blocks@[i as int]));
                return i;
            }
            i = i + 1;
        }
        self.blocks.push(Block::VorbisCommentBlock(VorbisComment::new()));
        assert(self.blocks@.subrange(0, i as int) =~= old(self).blocks@);
        assert(is_comment_block(self.blocks@[i as int]));
        i
    }

    /// The indices of the comment blocks, in order, after appending an empty one where
    /// there is none.
    pub fn vorbis_comments_mut(&mut self) -> (r: Vec<usize>)
        ensures
            with_comment_block(old(self).blocks@, final(self).blocks@),
            final(self).path == old(self).path,
            r@.len() >= 1,
            forall|k: int, m: int| 0 <= k < m < r@.len() ==> #[trigger] r@[k] < #[trigger] r@[m],
            forall|k: int|
                0 <= k < r@.len() ==> r@[k] < final(self).blocks@.len() && is_comment_block(
                    final(self).blocks@[#[trigger] r@[k] as int],
                ),
            forall|j: int|
                0 <= j < final(self).blocks@.len() && is_comment_block(
                    #[trigger] final(self).blocks@[j],
                ) ==> r@.contains(j as usize),
    {
        self.ensure_comment_block();
        let mut out: Vec<usize> = Vec::new();
        let mut i: usize = 0;
        while i < self.blocks.len()
            invariant
                i <= self.blocks@.len(),
                forall|k: int|
                    0 <= k < out@.len() ==> out@[k] < self.blocks@.len() && is_comment_block(
                        self.blocks@[#[trigger] out@[k] as int],
                    ),
                forall|k: int, m: int| 0 <= k < m < out@.len() ==> #[trigger] out@[k] < #[trigger] out@[m],
                forall|k: int| 0 <= k < out@.len() ==> #[trigger] out@[k] < i,
                forall|j: int|
                    0 <= j < i && is_comment_block(#[trigger] self.blocks@[j]) ==> out@.contains(
                        j as usize,
                    ),
            decreases self.blocks@.len() - i,
        {
            let ghost before = out@;
            if let Block::VorbisCommentBlock(_) = &self.blocks[i] {
                out.push(i);
                assert(out@[out@.len() - 1] == i);
            }
            proof {
                assert forall|j: int|
                    0 <= j < i + 1 && is_comment_block(#[trigger] self.blocks@[j]) implies out@.contains(
                    j as usize,
                ) by {
                    if j < i {
                        let k = choose|k: int| 0 <= k < before.len() && before[k] == j as usize;
                        assert(out@[k] == j as usize);
                    } else {
                        assert(out@[out@.len() - 1] == j as usize);
                    }
                }
            }
            i = i + 1;
        }
        let ghost f = choose|j: int| 0 <= j < self.blocks@.len() && is_comment_block(self.blocks@[j]);
        assert(out@.contains(f as usize));
        out
    }

    /// Keeps, in every comment block, only the comments that `kept(key, value, any)` keeps.
    fn filter_all_comments(&mut self, key: &String, value: &String, any: bool)
        ensures
            comments_filtered(old(self).blocks@, final(self).blocks@, kept(key@, value@, any)),
            final(self).path == old(self).path,
    {
        let ghost s = self.blocks@;
        let mut rest: Vec<Block> = Vec::new();
        core::mem::swap(&mut rest, &mut self.blocks);
        let ghost mut i: int = 0;
        while rest.len() > 0
            invariant
                0 <= i <= s.len(),
                rest@ == s.subrange(i, s.len() as int),
                comments_filtered(s.subrange(0, i), self.blocks@, kept(key@, value@, any)),
                self.path == old(self).path,
            decreases rest@.len(),
        {
            let b = rest.remove(0);
            let nb = match b {
                Block::VorbisCommentBlock(v) => {
                    let VorbisComment { vendor_string, comments } = v;
                    Block::VorbisCommentBlock(
                        VorbisComment {
                            vendor_string,
                            comments: filter_comments(comments, key, value, any),
                        },
                    )
                },
                other => other,
            };
            self.blocks.push(nb);
            proof {
                i = i + 1;
                assert(rest@ =~= s.subrange(i, s.len() as int));
                let pre = s.subrange(0, i);
                assert forall|j: int| 0 <= j < pre.len() implies match #[trigger] pre[j] {
                    Block::VorbisCommentBlock(v) => self.blocks@[j] matches Block::VorbisCommentBlock(w)
                        && w.vendor_string == v.vendor_string && w.comments@ == v.comments@.filter(
                        kept(key@, value@, any),
                    ),
                    _ => self.blocks@[j] == pre[j],
                } by {
                    if j < i - 1 {
                        assert(pre[j] == s.subrange(0, i - 1)[j]);
                    }
                }
            }
        }
        assert(s.subrange(0, i) =~= s);
    }

    /// Removes every comment with key `key` from every comment block, after appending an
    /// empty comment block where there is none.
    pub fn remove_vorbis_key(&mut self, key: &String)
        ensures
            key_removed(old(self).blocks@, final(self).blocks@, key@),
            final(self).path == old(self).path,
    {
        self.ensure_comment_block();
        let ghost mid = self.blocks@;
        let empty = String::new();
        self.filter_all_comments(key, &empty, true);
        assert(with_comment_block(old(self).blocks@, mid));
    }

    /// Removes every comment with key `key` and value `value` from every comment block, after
    /// appending an empty comment block where there is none.
    pub fn remove_vorbis_key_value(&mut self, key: &String, value: &String)
        ensures
            value_removed(old(self).blocks@, final(self).blocks@, key@, value@),
            final(self).path == old(self).path,
    {
        self.ensure_comment_block();
        let ghost mid = self.blocks@;
        self.filter_all_comments(key, value, false);
        assert(with_comment_block(old(self).blocks@, mid));
    }

    /// The values stored under `key` in every comment block, in order, joined with `", "`;
    /// `None` where there are none.
    pub fn get_vorbis_key(&self, key: &String) -> (r: Option<String>)
        ensures
            r is None <==> key_values(self.blocks@, key@).len() == 0,
            r matches Some(s) ==> s@ == joined(key_values(self.blocks@, key@)),
    {
        let ghost bs = self.blocks@;
        let mut acc = String::new();
        let mut found = false;
        let ghost mut vals: Seq<Seq<char>> = seq![];
        let mut i: usize = 0;
        while i < self.blocks.len()
            invariant
                i <= bs.len(),
                bs == self.blocks@,
                vals == key_values(bs.subrange(0, i as int), key@),
                acc@ == joined(vals),
                found == (vals.len() > 0),
            decreases bs.len() - i,
        {
            assert(bs.subrange(0, i + 1).drop_last() =~= bs.subrange(0, i as int));
            if let Block::VorbisCommentBlock(v) = &self.blocks[i] {
                let ghost base = vals;
                let mut j: usize = 0;
                while j < v.comments.len()
                    invariant
                        j <= v.comments@.len(),
                        vals == base + values_in(v.comments@.subrange(0, j as int), key@),
                        acc@ == joined(vals),
                        found == (vals.len() > 0),
                    decreases v.comments@.len() - j,
                {
                    let ghost cs = v.comments@.subrange(0, j + 1);
                    assert(cs.drop_last() =~= v.comments@.subrange(0, j as int));
                    if v.comments[j].0 == *key {
                        let value = &v.comments[j].1;
                        proof {
                            let x = value@;
                            assert(vals.push(x).drop_last() =~= vals);
                            assert(base + values_in(cs, key@) =~= vals.push(x));
                            vals = vals.push(x);
                        }
                        if found {
                            proof {
                                reveal_strlit(", ");
                            }
                            acc.append(", ");
                            assert(", "@ =~= separator());
                        }
                        acc.append(value.as_str());
                        found = true;
                    } else {
                        assert(base + values_in(cs, key@) =~= vals);
                    }
                    j = j + 1;
                }
                assert(v.comments@.subrange(0, j as int) =~= v.comments@);
            }
            i = i + 1;
        }
        assert(bs.subrange(0, i as int) =~= bs);
        if found {
            Some(acc)
        } else {
            None
        }
    }

    /// Replaces, in the first comment block, the comments with key `key` by one comment for
    /// each of `values`, in order, at its end; appends an empty comment block first where there
    /// is none. Other comment blocks are left as they were.
    pub fn set_vorbis_key(&mut self, key: String, values: Vec<String>)
        ensures
            key_set(old(self).blocks@, final(self).blocks@, key@, values@),
            final(self).path == old(self).path,
    {
        let idx = self.ensure_comment_block();
        let ghost mid = self.blocks@;
        let b = self.blocks.remove(idx);
        match b {
            Block::VorbisCommentBlock(v) => {
                let VorbisComment { vendor_string, comments } = v;
                let empty = String::new();
                let mut comments = filter_comments(comments, &key, &empty, true);
                let ghost base = comments@;
                let ghost vals = values@;
                let mut rest = values;
                let ghost mut i: int = 0;
                while rest.len() > 0
                    invariant
                        0 <= i <= vals.len(),
                        rest@ == vals.subrange(i, vals.len() as int),
                        comments@ == base + Seq::new(i as nat, |k: int| (key, vals[k])),
                    decreases rest@.len(),
                {
                    let value = rest.remove(0);
                    comments.push((key.clone(), value));
                    proof {
                        i = i + 1;
                        assert(rest@ =~= vals.subrange(i, vals.len() as int));
                        assert(comments@ =~= base + Seq::new(i as nat, |k: int| (key, vals[k])));
                    }
                }
                let ghost newc = comments@;
                proof {
                    assert(newc.subrange(0, base.len() as int) =~= base);
                    assert(forall|k: int| 0 <= k < vals.len() ==> newc[base.len() + k] == (key, vals[k]));
                }
                self.blocks.insert(idx, Block::VorbisCommentBlock(VorbisComment { vendor_string, comments }));
                proof {
                    assert(i == vals.len());
                    assert(first_comment_at(mid, idx as int));
                    assert(forall|j: int| 0 <= j < mid.len() && j != idx ==> self.blocks@[j] == mid[j]);
                    assert(key_set(old(self).blocks@, self.blocks@, key@, vals));
                }
            },
            other => {
                self.blocks.insert(idx, other);
            },
        }
    }

    /// The values under `key` in a list of comments, joined with `", "`.
    fn join_values(cs: &Vec<(String, String)>, key: &String) -> (r: String)
        ensures
            r@ == joined(values_in(cs@, key@)),
    {
        let mut acc = String::new();
        let mut found = false;
        let ghost mut vals: Seq<Seq<char>> = seq![];
        let mut j: usize = 0;
        while j < cs.len()
            invariant
                j <= cs@.len(),
                vals == values_in(cs@.subrange(0, j as int), key@),
                acc@ == joined(vals),
                found == (vals.len() > 0),
            decreases cs@.len() - j,
        {
            let ghost sub = cs@.subrange(0, j + 1);
            assert(sub.drop_last() =~= cs@.subrange(0, j as int));
            if cs[j].0 == *key {
                let value = &cs[j].1;
                proof {
                    assert(vals.push(value@).drop_last() =~= vals);
                    vals = vals.push(value@);
                }
                if found {
                    proof {
                        reveal_strlit(", ");
                    }
                    acc.append(", ");
                    assert(", "@ =~= separator());
                }
                acc.append(value.as_str());
                found = true;
            }
            j = j + 1;
        }
        assert(cs@.subrange(0, j as int) =~= cs@);
        acc
    }

    /// Each key of every comment block with its values joined with `", "`: block by block,
    /// and within a block in order of the key's first appearance.
    pub fn all_metadata(&self) -> (r: Vec<(String, String)>)
        ensures
            pair_views(r@) == metadata(self.blocks@),
    {
        let ghost bs = self.blocks@;
        let mut out: Vec<(String, String)> = Vec::new();
        let mut i: usize = 0;
        while i < self.blocks.len()
            invariant
                i <= bs.len(),
                bs == self.blocks@,
                pair_views(out@) == metadata(bs.subrange(0, i as int)),
            decreases bs.len() - i,
        {
            assert(bs.subrange(0, i + 1).drop_last() =~= bs.subrange(0, i as int));
            if let Block::VorbisCommentBlock(v) = &self.blocks[i] {
                let ghost base = out@;
                let cs = &v.comments;
                let mut j: usize = 0;
                while j < cs.len()
                    invariant
                        j <= cs@.len(),
                        pair_views(out@) == pair_views(base) + distinct_keys(
                            cs@.subrange(0, j as int),
                        ).map_values(|k: Seq<char>| (k, joined(values_in(cs@, k)))),
                    decreases cs@.len() - j,
                {
                    let ghost sub = cs@.subrange(0, j + 1);
                    assert(sub.drop_last() =~= cs@.subrange(0, j as int));
                    let mut seen = false;
                    let mut k: usize = 0;
                    while k < j
                        invariant
                            j < cs@.len(),
                            k <= j,
                            seen == exists|m: int| 0 <= m < k && (#[trigger] cs@[m]).0@ == cs@[j as int].0@,
                        decreases j - k,
                    {
                        if cs[k].0 == cs[j].0 {
                            seen = true;
                        }
                        k = k + 1;
                    }
                    proof {
                        lemma_distinct_keys(cs@, j as int);
                    }
                    if !seen {
                        let key = cs[j].0.clone();
                        let joined_values = Self::join_values(cs, &key);
                        let ghost before = out@;
                        out.push((key, joined_values));
                        proof {
                            assert(pair_views(out@) =~= pair_views(before).push(
                                (cs@[j as int].0@, joined(values_in(cs@, cs@[j as int].0@))),
                            ));
                        }
                    }
                    j = j + 1;
                    assert(pair_views(out@) =~= pair_views(base) + distinct_keys(
                        cs@.subrange(0, j as int),
                    ).map_values(|k: Seq<char>| (k, joined(values_in(cs@, k)))));
                }
                assert(cs@.subrange(0, j as int) =~= cs@);
                assert(pair_views(out@) =~= metadata(bs.subrange(0, i + 1)));
            }
            i = i + 1;
        }
        assert(bs.subrange(0, i as int) =~= bs);
        out
    }
}

} // verus!
