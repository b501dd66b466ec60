use vstd::prelude::*;
use vstd::utf8::encode_utf8;
use crate::bytes::{be32, le32};

verus! {

/// The type code of a stream-info block.
pub const STREAM_INFO: u8 = 0;

/// The type code of a padding block.
pub const PADDING: u8 = 1;

/// The type code of an application block.
pub const APPLICATION: u8 = 2;

/// The type code of a seek-table block.
pub const SEEK_TABLE: u8 = 3;

/// The type code of a Vorbis-comment block.
pub const VORBIS_COMMENT: u8 = 4;

/// The type code of a cue-sheet block.
pub const CUE_SHEET: u8 = 5;

/// The type code of a picture block.
pub const PICTURE: u8 = 6;

/// The largest payload length that a block header can carry.
pub const MAX_BLOCK_LEN: usize = 0xFF_FFFF;

/// Why reading or writing a tag failed.
#[derive(PartialEq, Eq, Structural, Clone, Copy, Debug)]
pub enum TagError {
    /// The bytes are not a well-formed tag, or a block cannot be encoded.
    FormatError,
    /// The underlying stream failed.
    IoError,
}

/// The category of an embedded picture.
#[derive(PartialEq, Eq, Structural, Clone, Copy, Debug)]
pub enum PictureType {
    Other,
    Icon,
    OtherIcon,
    CoverFront,
    CoverBack,
    Leaflet,
    Media,
    LeadArtist,
    Artist,
    Conductor,
    Band,
    Composer,
    Lyricist,
    RecordingLocation,
    DuringRecording,
    DuringPerformance,
    ScreenCapture,
    BrightFish,
    Illustration,
    BandLogo,
    PublisherLogo,
}

/// The number that stands for a picture category in a picture block.
pub open spec fn picture_code(t: PictureType) -> u32 {
    match t {
        PictureType::Other => 0,
        PictureType::Icon => 1,
        PictureType::OtherIcon => 2,
        PictureType::CoverFront => 3,
        PictureType::CoverBack => 4,
        PictureType::Leaflet => 5,
        PictureType::Media => 6,
        PictureType::LeadArtist => 7,
        PictureType::Artist => 8,
        PictureType::Conductor => 9,
        PictureType::Band => 10,
        PictureType::Composer => 11,
        PictureType::Lyricist => 12,
        PictureType::RecordingLocation => 13,
        PictureType::DuringRecording => 14,
        PictureType::DuringPerformance => 15,
        PictureType::ScreenCapture => 16,
        PictureType::BrightFish => 17,
        PictureType::Illustration => 18,
        PictureType::BandLogo => 19,
        PictureType::PublisherLogo => 20,
    }
}

impl PictureType {
    /// The category's number.
    pub fn code(&self) -> (r: u32)
        ensures
            r == picture_code(*self),
    {
        match self {
            PictureType::Other => 0,
            PictureType::Icon => 1,
            PictureType::OtherIcon => 2,
            PictureType::CoverFront => 3,
            PictureType::CoverBack => 4,
            PictureType::Leaflet => 5,
            PictureType::Media => 6,
            PictureType::LeadArtist => 7,
            PictureType::Artist => 8,
            PictureType::Conductor => 9,
            PictureType::Band => 10,
            PictureType::Composer => 11,
            PictureType::Lyricist => 12,
            PictureType::RecordingLocation => 13,
            PictureType::DuringRecording => 14,
            PictureType::DuringPerformance => 15,
            PictureType::ScreenCapture => 16,
            PictureType::BrightFish => 17,
            PictureType::Illustration => 18,
            PictureType::BandLogo => 19,
            PictureType::PublisherLogo => 20,
        }
    }

    /// The category with number `c`, if there is one.
    pub fn from_code(c: u32) -> (r: Option<PictureType>)
        ensures
            r matches Some(t) ==> picture_code(t) == c,
            r is None <==> c > 20,
    {
        match c {
            0 => Some(PictureType::Other),
            1 => Some(PictureType::Icon),
            2 => Some(PictureType::OtherIcon),
            3 => Some(PictureType::CoverFront),
            4 => Some(PictureType::CoverBack),
            5 => Some(PictureType::Leaflet),
            6 => Some(PictureType::Media),
            7 => Some(PictureType::LeadArtist),
            8 => Some(PictureType::Artist),
            9 => Some(PictureType::Conductor),
            10 => Some(PictureType::Band),
            11 => Some(PictureType::Composer),
            12 => Some(PictureType::Lyricist),
            13 => Some(PictureType::RecordingLocation),
            14 => Some(PictureType::DuringRecording),
            15 => Some(PictureType::DuringPerformance),
            16 => Some(PictureType::ScreenCapture),
            17 => Some(PictureType::BrightFish),
            18 => Some(PictureType::Illustration),
            19 => Some(PictureType::BandLogo),
            20 => Some(PictureType::PublisherLogo),
            _ => None,
        }
    }
}

/// An embedded image with its description.
pub struct Picture {
    pub picture_type: PictureType,
    pub mime_type: String,
    pub description: String,
    pub width: u32,
    pub height: u32,
    pub depth: u32,
    pub num_colors: u32,
    pub data: Vec<u8>,
}

impl Picture {
    /// A picture of category `Other` with empty fields.
    pub fn new() -> (r: Picture)
        ensures
            r.picture_type == PictureType::Other,
            r.mime_type@.len() == 0,
            r.description@.len() == 0,
            r.width == 0 && r.height == 0 && r.depth == 0 && r.num_colors == 0,
            r.data@.len() == 0,
    {
        Picture {
            picture_type: PictureType::Other,
            mime_type: String::new(),
            description: String::new(),
            width: 0,
            height: 0,
            depth: 0,
            num_colors: 0,
            data: Vec::new(),
        }
    }
}

/// A vendor string and an ordered list of `(key, value)` comments.
pub struct VorbisComment {
    pub vendor_string: String,
    pub comments: Vec<(String, String)>,
}

impl VorbisComment {
    /// A comment block with no vendor string and no comments.
    pub fn new() -> (r: VorbisComment)
        ensures
            r.vendor_string@.len() == 0,
            r.comments@.len() == 0,
    {
        VorbisComment { vendor_string: String::new(), comments: Vec::new() }
    }
}

/// An application's identifier and its data.
pub struct Application {
    pub id: u32,
    pub data: Vec<u8>,
}

/// One metadata block.
pub enum Block {
    StreamInfoBlock(Vec<u8>),
    PaddingBlock(u32),
    ApplicationBlock(Application),
    SeekTableBlock(Vec<u8>),
    VorbisCommentBlock(VorbisComment),
    CueSheetBlock(Vec<u8>),
    PictureBlock(Picture),
    UnknownBlock(u8, Vec<u8>),
}

/// The type code written in the header of block `b`.
pub open spec fn block_code(b: Block) -> u8 {
    match b {
        Block::StreamInfoBlock(_) => STREAM_INFO,
        Block::PaddingBlock(_) => PADDING,
        Block::ApplicationBlock(_) => APPLICATION,
        Block::SeekTableBlock(_) => SEEK_TABLE,
        Block::VorbisCommentBlock(_) => VORBIS_COMMENT,
        Block::CueSheetBlock(_) => CUE_SHEET,
        Block::PictureBlock(_) => PICTURE,
        Block::UnknownBlock(c, _) => c,
    }
}

impl Block {
    /// The block's type code.
    pub fn block_type(&self) -> (r: u8)
        ensures
            r == block_code(*self),
    {
        match self {
            Block::StreamInfoBlock(_) => STREAM_INFO,
            Block::PaddingBlock(_) => PADDING,
            Block::ApplicationBlock(_) => APPLICATION,
            Block::SeekTableBlock(_) => SEEK_TABLE,
            Block::VorbisCommentBlock(_) => VORBIS_COMMENT,
            Block::CueSheetBlock(_) => CUE_SHEET,
            Block::PictureBlock(_) => PICTURE,
            Block::UnknownBlock(c, _) => *c,
        }
    }
}

/// The UTF-8 bytes of a string.
pub open spec fn utf8(s: String) -> Seq<u8> {
    encode_utf8(s@)
}

/// A length-prefixed field of a picture block.
pub open spec fn be_field(b: Seq<u8>) -> Seq<u8> {
    be32(b.len() as u32) + b
}

/// The payload of a picture block.
pub open spec fn picture_bytes(p: Picture) -> Seq<u8> {
    be32(picture_code(p.picture_type)) + be_field(utf8(p.mime_type)) + be_field(
        utf8(p.description),
    ) + be32(p.width) + be32(p.height) + be32(p.depth) + be32(p.num_colors) + be_field(p.data@)
}

/// The text of one comment, `KEY=VALUE`.
pub open spec fn entry_text(e: (String, String)) -> Seq<u8> {
    utf8(e.0) + seq![0x3Du8] + utf8(e.1)
}

/// A length-prefixed field of a Vorbis-comment block.
pub open spec fn le_field(b: Seq<u8>) -> Seq<u8> {
    le32(b.len() as u32) + b
}

/// The bytes of a list of comments, one length-prefixed entry after another.
pub open spec fn entries_bytes(es: Seq<(String, String)>) -> Seq<u8>
    decreases es.len(),
{
    if es.len() == 0 {
        seq![]
    } else {
        entries_bytes(es.drop_last()) + le_field(entry_text(es.last()))
    }
}

/// The payload of a Vorbis-comment block.
pub open spec fn vorbis_bytes(v: VorbisComment) -> Seq<u8> {
    le_field(utf8(v.vendor_string)) + le32(v.comments@.len() as u32) + entries_bytes(v.comments@)
}

/// The payload of block `b`.
pub open spec fn payload_bytes(b: Block) -> Seq<u8> {
    match b {
        Block::StreamInfoBlock(d) => d@,
        Block::PaddingBlock(n) => Seq::new(n as nat, |i: int| 0u8),
        Block::ApplicationBlock(a) => be32(a.id) + a.data@,
        Block::SeekTableBlock(d) => d@,
        Block::VorbisCommentBlock(v) => vorbis_bytes(v),
        Block::CueSheetBlock(d) => d@,
        Block::PictureBlock(p) => picture_bytes(p),
        Block::UnknownBlock(_, d) => d@,
    }
}

/// Whether block `b` is as decoding makes it: an unknown block only for a type code that has
/// no decoder of its own.
pub open spec fn canonical(b: Block) -> bool {
    match b {
        Block::UnknownBlock(c, _) => c > PICTURE,
        _ => true,
    }
}

/// Whether block `b` can be written: its code fits in seven bits and its payload in the
/// header's length field.
pub open spec fn encodable(b: Block) -> bool {
    block_code(b) < 128 && payload_bytes(b).len() <= MAX_BLOCK_LEN
}

} // verus!
