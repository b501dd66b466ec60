use vstd::prelude::*;
use crate::block::{Block, Picture, PictureType, PICTURE};
use crate::tag::{FlacTag, lacks_code, lemma_filter_all, lemma_filter_step};

verus! {

/// Holds of the picture blocks.
pub open spec fn is_picture() -> spec_fn(Block) -> bool {
    |b: Block| b is PictureBlock
}

/// Holds of every block but the pictures of category `t`.
pub open spec fn not_picture_of(t: PictureType) -> spec_fn(Block) -> bool {
    |b: Block| !(b matches Block::PictureBlock(p) && p.picture_type == t)
}

impl FlacTag {
    /// References to the pictures, in block order.
    pub fn pictures(&self) -> (r: Vec<&Picture>)
        ensures
            r@.len() == self.blocks@.filter(is_picture()).len(),
            forall|k: int|
                0 <= k < r@.len() ==> Block::PictureBlock(*#[trigger] r@[k]) == self.blocks@.filter(
                    is_picture(),
                )[k],
    {
        let ghost s = self.blocks@;
        let mut out: Vec<&Picture> = Vec::new();
        let mut i: usize = 0;
        while i < self.blocks.len()
            invariant
                i <= s.len(),
                s == self.blocks@,
                out@.len() == s.subrange(0, i as int).filter(is_picture()).len(),
                forall|k: int|
                    0 <= k < out@.len() ==> Block::PictureBlock(*#[trigger] out@[k]) == s.subrange(
                        0,
                        i as int,
                    ).filter(is_picture())[k],
            decreases s.len() - i,
        {
            proof {
                lemma_filter_step(s, i as int, is_picture());
            }
            match &self.blocks[i] {
                Block::PictureBlock(p) => {
                    out.push(p);
                },
                _ => {},
            }
            i = i + 1;
        }
        assert(s.subrange(0, i as int) =~= s);
        out
    }

    /// Removes the pictures of category `picture_type`; the other blocks keep their order.
    pub fn remove_picture_type(&mut self, picture_type: PictureType)
        ensures
            final(self).blocks@ == old(self).blocks@.filter(not_picture_of(picture_type)),
            final(self).path == old(self).path,
    {
        let ghost s = self.blocks@;
        let mut rest: Vec<Block> = Vec::new();
        core::mem::swap(&mut rest, &mut self.blocks);
        let ghost mut i: int = 0;
        while rest.len() > 0
            invariant
                0 <= i <= s.len(),
                rest@ == s.subrange(i, s.len() as int),
                self.blocks@ == s.subrange(0, i).filter(not_picture_of(picture_type)),
                self.path == old(self).path,
            decreases rest@.len(),
        {
            proof {
                reveal(Seq::filter);
                assert(s.subrange(0, i + 1).drop_last() =~= s.subrange(0, i));
            }
            let b = rest.remove(0);
            let keep = match &b {
                Block::PictureBlock(p) => p.picture_type != picture_type,
                _ => true,
            };
            if keep {
                self.blocks.push(b);
            }
            proof {
                i = i + 1;
                assert(rest@ =~= s.subrange(i, s.len() as int));
            }
        }
        assert(s.subrange(0, i) =~= s);
    }

    /// Adds a picture of category `picture_type`, replacing any picture of that category. The
    /// new picture comes last, with an empty description and zero dimensions.
    pub fn add_picture(&mut self, mime_type: String, picture_type: PictureType, data: Vec<u8>)
        ensures
            final(self).path == old(self).path,
            final(self).blocks@.drop_last() == old(self).blocks@.filter(
                not_picture_of(picture_type),
            ),
            final(self).blocks@.len() >= 1,
            final(self).blocks@.last() matches Block::PictureBlock(p) && p.mime_type == mime_type
                && p.picture_type == picture_type && p.data == data && p.description@.len() == 0
                && p.width == 0 && p.height == 0 && p.depth == 0 && p.num_colors == 0,
    {
        self.remove_picture_type(picture_type);
        let mut picture = Picture::new();
        picture.mime_type = mime_type;
        picture.picture_type = picture_type;
        picture.data = data;
        self.blocks.push(Block::PictureBlock(picture));
        assert(self.blocks@.drop_last() =~= old(self).blocks@.filter(not_picture_of(picture_type)));
    }

    /// Replaces all pictures by one of category `Other`.
    pub fn set_picture(&mut self, mime_type: String, data: Vec<u8>)
        ensures
            final(self).path == old(self).path,
            final(self).blocks@.drop_last() == old(self).blocks@.filter(lacks_code(PICTURE)),
            final(self).blocks@.len() >= 1,
            final(self).blocks@.last() matches Block::PictureBlock(p) && p.mime_type == mime_type
                && p.picture_type == PictureType::Other && p.data == data,
    {
        self.remove_picture();
        let ghost mid = self.blocks@;
        self.add_picture(mime_type, PictureType::Other, data);
        proof {
            assert forall|i: int| 0 <= i < mid.len() implies (#[trigger] not_picture_of(
                PictureType::Other,
            )(mid[i])) by {
                old(self).blocks@.lemma_filter_pred(lacks_code(PICTURE), i);
            }
            lemma_filter_all(mid, not_picture_of(PictureType::Other));
        }
    }

    /// Removes all pictures.
    pub fn remove_picture(&mut self)
        ensures
            final(self).blocks@ == old(self).blocks@.filter(lacks_code(PICTURE)),
            final(self).path == old(self).path,
    {
        self.remove_blocks_with_type(PICTURE);
    }
}

} // verus!
