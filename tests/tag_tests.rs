use metaflac::block::{PADDING, PICTURE, VORBIS_COMMENT};
use metaflac::{
    decode_block, encode_block, is_candidate, skip_metadata, Application, Block, FlacTag,
    PictureType, TagError, VorbisComment,
};

fn s(x: &str) -> String {
    x.to_string()
}

fn padding_sizes(tag: &FlacTag) -> Vec<u32> {
    let mut out = Vec::new();
    for b in tag.blocks() {
        if let Block::PaddingBlock(n) = b {
            out.push(*n);
        }
    }
    out
}

fn sample_tag() -> FlacTag {
    let mut tag = FlacTag::new();
    tag.add_block(Block::PaddingBlock(3));
    tag.add_block(Block::SeekTableBlock(vec![1, 2, 3]));
    tag.add_block(Block::StreamInfoBlock(vec![9; 34]));
    tag.add_block(Block::PaddingBlock(5));
    tag.add_block(Block::ApplicationBlock(Application { id: 0x61626364, data: vec![7, 8] }));
    tag.add_block(Block::UnknownBlock(20, vec![0xAA, 0xBB]));
    tag.add_block(Block::CueSheetBlock(vec![5]));
    tag.set_vorbis_key(s("ARTIST"), vec![s("Somebody"), s("Ünïcode")]);
    tag.add_picture(s("image/png"), PictureType::CoverFront, vec![0x89, 0x50]);
    tag
}

#[test]
fn aggregate_padding_merges_sizes() {
    let mut tag = FlacTag::new();
    tag.add_block(Block::PaddingBlock(10));
    tag.add_block(Block::UnknownBlock(20, Vec::new()));
    tag.add_block(Block::PaddingBlock(15));
    tag.aggregate_padding();
    let padding_blocks = tag.blocks_with_type(PADDING);
    assert_eq!(padding_blocks.len(), 1);
    if let Block::PaddingBlock(size) = padding_blocks[0] {
        assert_eq!(*size, 25);
    } else {
        panic!("block was not padding");
    }
    assert_eq!(tag.blocks().len(), 2);
    assert_eq!(tag.blocks()[0].block_type(), 20);
}

#[test]
fn aggregate_padding_without_padding_adds_empty_block() {
    let mut tag = FlacTag::new();
    tag.add_block(Block::SeekTableBlock(vec![1]));
    tag.aggregate_padding();
    assert_eq!(padding_sizes(&tag), vec![0]);
    assert_eq!(tag.blocks().len(), 2);
}

#[test]
fn remove_blocks_with_type_keeps_others() {
    let mut tag = FlacTag::new();
    tag.add_block(Block::PaddingBlock(10));
    tag.add_block(Block::UnknownBlock(20, Vec::new()));
    tag.add_block(Block::PaddingBlock(15));
    tag.remove_blocks_with_type(PADDING);
    assert_eq!(tag.blocks().len(), 1);
}

#[test]
fn vorbis_comments_created_on_set() {
    let mut tag = FlacTag::new();
    assert_eq!(tag.vorbis_comments().len(), 0);
    tag.set_vorbis_key(s("key"), vec![s("value")]);
    assert_eq!(tag.vorbis_comments().len(), 1);
    assert_eq!(tag.blocks_with_type(VORBIS_COMMENT).len(), 1);
}

#[test]
fn vorbis_comments_mut_creates_one_block() {
    let mut tag = FlacTag::new();
    let idx = tag.vorbis_comments_mut();
    assert_eq!(idx, vec![0]);
    let idx = tag.vorbis_comments_mut();
    assert_eq!(idx, vec![0]);
    assert_eq!(tag.blocks().len(), 1);
}

#[test]
fn comment_set_then_get_joins_values() {
    let mut tag = FlacTag::new();
    tag.set_vorbis_key(s("key"), vec![s("value1"), s("value2")]);
    assert_eq!(tag.get_vorbis_key(&s("key")).unwrap(), "value1, value2");
    assert!(tag.get_vorbis_key(&s("KEY")).is_none());
}

#[test]
fn comment_set_replaces_previous_values() {
    let mut tag = FlacTag::new();
    tag.set_vorbis_key(s("key"), vec![s("a")]);
    tag.set_vorbis_key(s("other"), vec![s("b")]);
    tag.set_vorbis_key(s("key"), vec![s("c")]);
    assert_eq!(tag.get_vorbis_key(&s("key")).unwrap(), "c");
    assert_eq!(tag.get_vorbis_key(&s("other")).unwrap(), "b");
}

#[test]
fn comment_get_spans_blocks() {
    let mut tag = FlacTag::new();
    let mut first = VorbisComment::new();
    first.comments.push((s("k"), s("x")));
    let mut second = VorbisComment::new();
    second.comments.push((s("k"), s("y")));
    tag.add_block(Block::VorbisCommentBlock(first));
    tag.add_block(Block::VorbisCommentBlock(second));
    assert_eq!(tag.get_vorbis_key(&s("k")).unwrap(), "x, y");
    tag.set_vorbis_key(s("k"), vec![s("z")]);
    assert_eq!(tag.get_vorbis_key(&s("k")).unwrap(), "z, y");
    tag.remove_vorbis_key(&s("k"));
    assert!(tag.get_vorbis_key(&s("k")).is_none());
}

#[test]
fn comment_remove_value_then_key() {
    let mut tag = FlacTag::new();
    tag.set_vorbis_key(s("key"), vec![s("value1"), s("value2")]);
    tag.remove_vorbis_key_value(&s("key"), &s("value1"));
    assert_eq!(tag.get_vorbis_key(&s("key")).unwrap(), "value2");
    tag.remove_vorbis_key(&s("key"));
    assert!(tag.get_vorbis_key(&s("key")).is_none());
}

#[test]
fn picture_replace_by_category() {
    let mut tag = FlacTag::new();
    assert_eq!(tag.pictures().len(), 0);
    tag.add_picture(s("image/jpeg"), PictureType::CoverFront, vec![0xFF]);
    assert_eq!(tag.pictures().len(), 1);
    assert_eq!(tag.pictures()[0].mime_type, "image/jpeg");
    tag.add_picture(s("image/png"), PictureType::Other, vec![0xAB]);
    assert_eq!(tag.pictures().len(), 2);
    tag.remove_picture_type(PictureType::CoverFront);
    assert_eq!(tag.pictures().len(), 1);
    assert_eq!(tag.pictures()[0].mime_type, "image/png");
    assert_eq!(tag.pictures()[0].picture_type, PictureType::Other);
    assert_eq!(tag.pictures()[0].data, vec![0xAB]);
}

#[test]
fn picture_same_category_replaced() {
    let mut tag = FlacTag::new();
    tag.add_picture(s("image/jpeg"), PictureType::CoverFront, vec![1]);
    tag.add_picture(s("image/png"), PictureType::CoverFront, vec![2]);
    assert_eq!(tag.pictures().len(), 1);
    assert_eq!(tag.pictures()[0].data, vec![2]);
    tag.set_picture(s("image/gif"), vec![3]);
    assert_eq!(tag.pictures().len(), 1);
    assert_eq!(tag.pictures()[0].picture_type, PictureType::Other);
    tag.remove_picture();
    assert_eq!(tag.blocks_with_type(PICTURE).len(), 0);
}

#[test]
fn non_flac_input_is_rejected_and_kept_whole() {
    let data = vec![b'I', b'D', b'3', 4, 0, 1, 2, 3];
    assert!(!is_candidate(&data));
    assert_eq!(FlacTag::read_from(&data).err(), Some(TagError::FormatError));
    assert_eq!(skip_metadata(&data), data);
    assert!(!is_candidate(b"fLa"));
}

#[test]
fn malformed_length_is_rejected() {
    let data = vec![b'f', b'L', b'a', b'C', 0x81, 0, 0, 10, 1, 2, 3];
    assert!(is_candidate(&data));
    assert_eq!(FlacTag::read_from(&data).err(), Some(TagError::FormatError));
    assert_eq!(decode_block(&data, 4).err(), Some(TagError::FormatError));
    assert_eq!(FlacTag::read_from(b"fLaC\x80\x00").err(), Some(TagError::FormatError));
}

#[test]
fn write_orders_blocks() {
    let mut tag = sample_tag();
    let out = tag.write_to().unwrap();
    assert_eq!(&out[0..4], b"fLaC");
    let codes: Vec<u8> = tag.blocks().iter().map(|b| b.block_type()).collect();
    assert_eq!(codes, vec![0, 3, 2, 20, 5, 4, 6, 1]);
    assert_eq!(padding_sizes(&tag), vec![8]);
    assert_eq!(out[4], 0);
    assert_eq!(&out[5..8], &[0, 0, 34]);
}

#[test]
fn round_trip_is_byte_identical() {
    let mut tag = sample_tag();
    let mut audio = tag.write_to().unwrap();
    let first = audio.clone();
    audio.extend_from_slice(&[0xFF, 0xF8, 1, 2]);
    let mut again = FlacTag::read_from(&audio).unwrap();
    assert_eq!(again.blocks().len(), 8);
    assert_eq!(again.artist().unwrap(), "Somebody, Ünïcode");
    assert_eq!(again.pictures()[0].data, vec![0x89, 0x50]);
    let second = again.write_to().unwrap();
    assert_eq!(first, second);
    assert_eq!(skip_metadata(&audio), vec![0xFF, 0xF8, 1, 2]);
}

#[test]
fn skip_metadata_on_cut_stream() {
    let data = vec![b'f', b'L', b'a', b'C', 0x01, 0, 0, 1, 0, 0x81];
    assert_eq!(skip_metadata(&data), vec![0x81]);
    let data = vec![b'f', b'L', b'a', b'C', 0x81, 0, 0, 9, 0];
    assert_eq!(skip_metadata(&data), Vec::<u8>::new());
}

#[test]
fn oversized_padding_fails_to_encode() {
    let mut out = Vec::new();
    assert_eq!(encode_block(true, &Block::PaddingBlock(0x100_0000), &mut out), Err(TagError::FormatError));
    assert!(out.is_empty());
    assert_eq!(encode_block(false, &Block::UnknownBlock(200, vec![]), &mut out), Err(TagError::FormatError));
    assert_eq!(encode_block(true, &Block::PaddingBlock(2), &mut out), Ok(()));
    assert_eq!(out, vec![0x81, 0, 0, 2, 0, 0]);
    let mut tag = FlacTag::new();
    tag.add_block(Block::PaddingBlock(0x80_0000));
    tag.add_block(Block::PaddingBlock(0x80_0000));
    assert_eq!(tag.write_to().err(), Some(TagError::FormatError));
    let mut tag = FlacTag::new();
    tag.add_block(Block::PaddingBlock(u32::MAX));
    tag.add_block(Block::PaddingBlock(1));
    assert_eq!(tag.write_to().err(), Some(TagError::FormatError));
    assert_eq!(tag.blocks().len(), 2);
}

#[test]
fn vorbis_payload_layout() {
    let mut tag = FlacTag::new();
    tag.set_vorbis_key(s("A"), vec![s("b")]);
    let out = tag.write_to().unwrap();
    let expected: Vec<u8> = vec![
        b'f', b'L', b'a', b'C', 4, 0, 0, 15, 0, 0, 0, 0, 1, 0, 0, 0, 3, 0, 0, 0, b'A', b'=', b'b',
        0x81, 0, 0, 0,
    ];
    assert_eq!(out, expected);
}

#[test]
fn bad_vorbis_entries_are_rejected() {
    let mut no_sep = vec![b'f', b'L', b'a', b'C', 0x84, 0, 0, 14, 0, 0, 0, 0, 1, 0, 0, 0, 2, 0, 0, 0, b'A', b'b'];
    assert_eq!(FlacTag::read_from(&no_sep).err(), Some(TagError::FormatError));
    no_sep[20] = b'=';
    assert!(FlacTag::read_from(&no_sep).is_ok());
    let bad_utf8 = vec![b'f', b'L', b'a', b'C', 0x84, 0, 0, 15, 0, 0, 0, 0, 1, 0, 0, 0, 3, 0, 0, 0, b'A', b'=', 0xFF];
    assert_eq!(FlacTag::read_from(&bad_utf8).err(), Some(TagError::FormatError));
}

#[test]
fn picture_payload_layout() {
    let mut tag = FlacTag::new();
    tag.add_picture(s("a/b"), PictureType::CoverBack, vec![0xEE]);
    let out = tag.write_to().unwrap();
    assert_eq!(&out[4..8], &[6, 0, 0, 36]);
    assert_eq!(&out[8..12], &[0, 0, 0, 4]);
    assert_eq!(&out[12..19], &[0, 0, 0, 3, b'a', b'/', b'b']);
    assert_eq!(out[43], 0xEE);
    let bad_category = {
        let mut b = out.clone();
        b[11] = 99;
        b
    };
    assert_eq!(FlacTag::read_from(&bad_category).err(), Some(TagError::FormatError));
}

#[test]
fn typed_accessors() {
    let mut tag = FlacTag::new();
    tag.set_vorbis_key(s("ARTISTSORT"), vec![s("Beatles, The")]);
    tag.set_artist(s("The Beatles"));
    assert_eq!(tag.artist().unwrap(), "The Beatles");
    assert!(tag.get_vorbis_key(&s("ARTISTSORT")).is_none());
    tag.set_track(7);
    assert_eq!(tag.track(), Some(7));
    assert_eq!(tag.get_vorbis_key(&s("TRACKNUMBER")).unwrap(), "7");
    tag.set_total_tracks(12);
    assert_eq!(tag.total_tracks(), Some(12));
    tag.remove_track();
    assert_eq!(tag.track(), None);
    assert_eq!(tag.total_tracks(), None);
    tag.set_vorbis_key(s("TRACKNUMBER"), vec![s("+42")]);
    assert_eq!(tag.track(), Some(42));
    tag.set_vorbis_key(s("TRACKNUMBER"), vec![s("4x")]);
    assert_eq!(tag.track(), None);
    tag.set_album(s("Abbey Road"));
    tag.set_title(s("Something"));
    tag.set_genre(s("Rock"));
    tag.set_album_artist(s("Various"));
    tag.set_lyrics(s("la la"));
    assert_eq!(tag.album().unwrap(), "Abbey Road");
    assert_eq!(tag.title().unwrap(), "Something");
    assert_eq!(tag.genre().unwrap(), "Rock");
    assert_eq!(tag.album_artist().unwrap(), "Various");
    assert_eq!(tag.lyrics().unwrap(), "la la");
    tag.remove_album();
    tag.remove_title();
    tag.remove_genre();
    tag.remove_album_artist();
    tag.remove_lyrics();
    tag.remove_artist();
    tag.remove_total_tracks();
    assert!(tag.album().is_none() && tag.title().is_none() && tag.genre().is_none());
    assert!(tag.album_artist().is_none() && tag.lyrics().is_none() && tag.artist().is_none());
}

#[test]
fn picture_type_codes() {
    assert_eq!(PictureType::CoverFront.code(), 3);
    assert_eq!(PictureType::from_code(20), Some(PictureType::PublisherLogo));
    assert_eq!(PictureType::from_code(21), None);
}

#[test]
fn blocks_mut_changes_in_place() {
    let mut tag = FlacTag::new();
    tag.add_block(Block::PaddingBlock(4));
    tag.blocks_mut().push(Block::SeekTableBlock(vec![1]));
    tag.blocks_mut()[0] = Block::PaddingBlock(6);
    assert_eq!(tag.blocks().len(), 2);
    assert_eq!(padding_sizes(&tag), vec![6]);
}

#[test]
fn key_with_equals_reads_back_split() {
    let mut tag = FlacTag::new();
    tag.set_vorbis_key(s("A=B"), vec![s("c")]);
    let out = tag.write_to().unwrap();
    let mut again = FlacTag::read_from(&out).unwrap();
    assert_eq!(again.get_vorbis_key(&s("A")).unwrap(), "B=c");
    assert_eq!(again.write_to().unwrap(), out);
}

#[test]
fn all_metadata_groups_by_key() {
    let mut tag = FlacTag::new();
    let mut first = VorbisComment::new();
    first.comments.push((s("A"), s("1")));
    first.comments.push((s("B"), s("2")));
    first.comments.push((s("A"), s("3")));
    let mut second = VorbisComment::new();
    second.comments.push((s("A"), s("4")));
    tag.add_block(Block::VorbisCommentBlock(first));
    tag.add_block(Block::PaddingBlock(1));
    tag.add_block(Block::VorbisCommentBlock(second));
    assert_eq!(
        tag.all_metadata(),
        vec![(s("A"), s("1, 3")), (s("B"), s("2")), (s("A"), s("4"))]
    );
    assert!(FlacTag::new().all_metadata().is_empty());
}

#[test]
fn later_block_overrun_is_format_error() {
    let data = vec![b'f', b'L', b'a', b'C', 0x03, 0, 0, 1, 9, 0x85, 0, 0, 5, 1, 2];
    assert_eq!(FlacTag::read_from(&data).err(), Some(TagError::FormatError));
}

#[test]
fn unknown_code_and_padding_are_kept() {
    let data = vec![
        b'f', b'L', b'a', b'C', 0x07, 0, 0, 2, 0xAB, 0xCD, 0x7F, 0, 0, 1, 0xEE, 0x81, 0, 0, 3, 1, 2, 3,
        0xFF,
    ];
    let tag = FlacTag::read_from(&data).unwrap();
    assert_eq!(tag.blocks().len(), 3);
    match &tag.blocks()[0] {
        Block::UnknownBlock(c, d) => {
            assert_eq!(*c, 7);
            assert_eq!(*d, vec![0xAB, 0xCD]);
        }
        _ => panic!("expected an unknown block"),
    }
    assert_eq!(tag.blocks()[1].block_type(), 127);
    assert_eq!(padding_sizes(&tag), vec![3]);
}

#[test]
fn vorbis_comments_mut_gives_indices_in_order() {
    let mut tag = FlacTag::new();
    tag.add_block(Block::VorbisCommentBlock(VorbisComment::new()));
    tag.add_block(Block::PaddingBlock(1));
    tag.add_block(Block::VorbisCommentBlock(VorbisComment::new()));
    assert_eq!(tag.vorbis_comments_mut(), vec![0, 2]);
    assert_eq!(tag.blocks().len(), 3);
    assert_eq!(tag.vorbis_comments().len(), 2);
}
