use vstd::prelude::*;
use vstd::utf8::{decode_utf8, valid_utf8, decode_utf8_encode_utf8, encode_utf8_valid_utf8};
use crate::block::{
    Application, Block, PictureType, be_field, le_field, canonical, picture_code, Picture, TagError, VorbisComment, block_code, encodable, entries_bytes, entry_text,
    payload_bytes, picture_bytes, utf8, vorbis_bytes, MAX_BLOCK_LEN, APPLICATION, CUE_SHEET, PADDING,
    PICTURE, SEEK_TABLE, STREAM_INFO, VORBIS_COMMENT,
};
use crate::bytes::{
    be24, be32, be24_value, le32, push_all, push_be24, push_be32, push_le32, copy_range, read_be24,
    read_be32, read_le32, lemma_be32_injective, lemma_le32_injective, lemma_be24_injective,
};

verus! {

/// The first byte of a block header: the last-block flag over the seven-bit type code.
pub open spec fn header_byte(last: bool, code: u8) -> u8 {
    if last {
        (code + 128) as u8
    } else {
        code
    }
}

/// The four header bytes of block `b`.
pub open spec fn header_bytes(last: bool, b: Block) -> Seq<u8> {
    seq![header_byte(last, block_code(b))] + be24(payload_bytes(b).len() as u32)
}

/// The bytes of block `b`: its header, then its payload.
pub open spec fn block_bytes(last: bool, b: Block) -> Seq<u8> {
    header_bytes(last, b) + payload_bytes(b)
}

/// Relies on String::from_utf8: it succeeds exactly on valid UTF-8 and the string then holds
/// the characters that the bytes encode.
#[verifier::external_body]
fn string_from_utf8(b: Vec<u8>) -> (r: Option<String>)
    ensures
        r is Some <==> valid_utf8(b@),
        r matches Some(s) ==> s@ == decode_utf8(b@),
{
    String::from_utf8(b).ok()
}

/// The UTF-8 bytes of `s`.
pub fn string_bytes(s: &String) -> (r: &[u8])
    ensures
        r@ == utf8(*s),
{
    s.as_str().as_bytes()
}

/// Reads `len` bytes at `pos` as a UTF-8 string.
fn take_string(p: &[u8], pos: usize, len: usize) -> (r: Result<String, TagError>)
    requires
        pos + len <= p@.len(),
    ensures
        r matches Ok(s) ==> utf8(s) == p@.subrange(pos as int, pos + len),
        r is Ok <==> valid_utf8(p@.subrange(pos as int, pos + len)),
{
    let _n = p.len();
    let raw = copy_range(p, pos, pos + len);
    match string_from_utf8(raw) {
        Some(s) => {
            proof {
                decode_utf8_encode_utf8(raw@);
            }
            Ok(s)
        },
        None => Err(TagError::FormatError),
    }
}

/// Appends the payload of a picture block.
fn write_picture(p: &Picture, out: &mut Vec<u8>)
    ensures
        final(out)@ == old(out)@ + picture_bytes(*p),
{
    push_be32(out, p.picture_type.code());
    let mime = string_bytes(&p.mime_type);
    push_be32(out, mime.len() as u32);
    push_all(out, mime);
    let desc = string_bytes(&p.description);
    push_be32(out, desc.len() as u32);
    push_all(out, desc);
    push_be32(out, p.width);
    push_be32(out, p.height);
    push_be32(out, p.depth);
    push_be32(out, p.num_colors);
    push_be32(out, p.data.len() as u32);
    push_all(out, p.data.as_slice());
    assert(final(out)@ =~= old(out)@ + picture_bytes(*p));
}

/// Appends the payload of a Vorbis-comment block.
fn write_vorbis(v: &VorbisComment, out: &mut Vec<u8>)
    ensures
        final(out)@ == old(out)@ + vorbis_bytes(*v),
{
    let vendor = string_bytes(&v.vendor_string);
    push_le32(out, vendor.len() as u32);
    push_all(out, vendor);
    push_le32(out, v.comments.len() as u32);
    let ghost start = out@;
    let mut i: usize = 0;
    while i < v.comments.len()
        invariant
            i <= v.comments@.len(),
            out@ == start + entries_bytes(v.comments@.subrange(0, i as int)),
        decreases v.comments@.len() - i,
    {
        let mut text: Vec<u8> = Vec::new();
        push_all(&mut text, string_bytes(&v.comments[i].0));
        text.push(0x3Du8);
        push_all(&mut text, string_bytes(&v.comments[i].1));
        assert(text@ =~= entry_text(v.comments@[i as int]));
        push_le32(out, text.len() as u32);
        push_all(out, text.as_slice());
        proof {
            let s = v.comments@.subrange(0, i + 1);
            assert(s.drop_last() =~= v.comments@.subrange(0, i as int));
        }
        i = i + 1;
        assert(out@ =~= start + entries_bytes(v.comments@.subrange(0, i as int)));
    }
    assert(v.comments@.subrange(0, i as int) =~= v.comments@);
    assert(final(out)@ =~= old(out)@ + vorbis_bytes(*v));
}

/// The payload of block `b`.
pub fn encode_payload(b: &Block) -> (r: Vec<u8>)
    ensures
        r@ == payload_bytes(*b),
{
    let mut out: Vec<u8> = Vec::new();
    match b {
        Block::StreamInfoBlock(d) => push_all(&mut out, d.as_slice()),
        Block::PaddingBlock(n) => {
            let mut i: u32 = 0;
            while i < *n
                invariant
                    i <= *n,
                    out@ == Seq::new(i as nat, |j: int| 0u8),
                decreases *n - i,
            {
                out.push(0u8);
                i = i + 1;
                assert(out@ =~= Seq::new(i as nat, |j: int| 0u8));
            }
        },
        Block::ApplicationBlock(a) => {
            push_be32(&mut out, a.id);
            push_all(&mut out, a.data.as_slice());
        },
        Block::SeekTableBlock(d) => push_all(&mut out, d.as_slice()),
        Block::VorbisCommentBlock(v) => write_vorbis(v, &mut out),
        Block::CueSheetBlock(d) => push_all(&mut out, d.as_slice()),
        Block::PictureBlock(p) => write_picture(p, &mut out),
        Block::UnknownBlock(_, d) => push_all(&mut out, d.as_slice()),
    }
    assert(out@ =~= payload_bytes(*b));
    out
}

/// Appends block `b`, with the last-block flag `is_last`, to `out`. Fails, and leaves `out`
/// as it was, where the type code does not fit in seven bits or the payload does not fit in
/// the 24-bit length field.
pub fn encode_block(is_last: bool, b: &Block, out: &mut Vec<u8>) -> (r: Result<(), TagError>)
    ensures
        r is Ok <==> encodable(*b),
        r is Ok ==> final(out)@ == old(out)@ + block_bytes(is_last, *b),
        r is Err ==> r == Err::<(), TagError>(TagError::FormatError) && final(out)@ == old(out)@,
{
    let code = b.block_type();
    if code >= 128 {
        return Err(TagError::FormatError);
    }
    let payload = encode_payload(b);
    if payload.len() > MAX_BLOCK_LEN {
        return Err(TagError::FormatError);
    }
    if is_last {
        out.push(code + 128);
    } else {
        out.push(code);
    }
    push_be24(out, payload.len() as u32);
    push_all(out, payload.as_slice());
    assert(final(out)@ =~= old(out)@ + block_bytes(is_last, *b));
    Ok(())
}

/// Reads a length-prefixed UTF-8 field of a picture block at `pos`. It succeeds where the
/// bytes there are such a field for some valid UTF-8 text.
fn take_be_string(p: &[u8], pos: usize) -> (r: Result<(String, usize), TagError>)
    ensures
        r matches Ok((s, next)) ==> pos < next <= p@.len() && be_field(utf8(s)) == p@.subrange(
            pos as int,
            next as int,
        ),
        forall|t: Seq<u8>|
            valid_utf8(t) && t.len() <= u32::MAX && pos + 4 + t.len() <= p@.len() && #[trigger] be_field(t)
                == p@.subrange(pos as int, pos + 4 + t.len()) ==> (r matches Ok((_, next)) && next
                == pos + 4 + t.len()),
{
    let n = p.len();
    if pos > n || n - pos < 4 {
        return Err(TagError::FormatError);
    }
    let len = read_be32(p, pos);
    proof {
        assert forall|t: Seq<u8>|
            t.len() <= u32::MAX && pos + 4 + t.len() <= p@.len() && #[trigger] be_field(t)
                == p@.subrange(pos as int, pos + 4 + t.len()) implies len == t.len() by {
            assert(be_field(t).subrange(0, 4) =~= be32(t.len() as u32));
            assert(p@.subrange(pos as int, pos + 4 + t.len()).subrange(0, 4) =~= p@.subrange(
                pos as int,
                pos + 4,
            ));
            lemma_be32_injective(len, t.len() as u32);
        }
    }
    if n - pos - 4 < len as usize {
        return Err(TagError::FormatError);
    }
    proof {
        assert forall|t: Seq<u8>|
            t.len() <= u32::MAX && pos + 4 + t.len() <= p@.len() && #[trigger] be_field(t)
                == p@.subrange(pos as int, pos + 4 + t.len()) implies t == p@.subrange(
            pos + 4,
            pos + 4 + len,
        ) by {
            assert(be_field(t).subrange(4, 4 + t.len() as int) =~= t);
            assert(p@.subrange(pos as int, pos + 4 + t.len()).subrange(4, 4 + t.len() as int) =~= p@.subrange(
                pos + 4,
                pos + 4 + t.len(),
            ));
        }
    }
    let s = take_string(p, pos + 4, len as usize)?;
    let next = pos + 4 + len as usize;
    assert(be_field(utf8(s)) =~= p@.subrange(pos as int, next as int));
    Ok((s, next))
}

/// Reads a big-endian 32-bit field at `pos`.
fn take_be32(p: &[u8], pos: usize) -> (r: Result<(u32, usize), TagError>)
    ensures
        r matches Ok((x, next)) ==> next == pos + 4 && next <= p@.len() && be32(x) == p@.subrange(
            pos as int,
            next as int,
        ),
        r is Ok <==> pos + 4 <= p@.len(),
{
    let n = p.len();
    if pos > n || n - pos < 4 {
        return Err(TagError::FormatError);
    }
    Ok((read_be32(p, pos), pos + 4))
}

/// Whether the text and data of picture `pic` have lengths that fit their 32-bit fields.
pub open spec fn picture_fits(pic: Picture) -> bool {
    &&& utf8(pic.mime_type).len() <= u32::MAX
    &&& utf8(pic.description).len() <= u32::MAX
    &&& pic.data@.len() <= u32::MAX
}

/// Decodes the payload of a picture block. What it returns encodes to exactly `p`; it fails
/// on a category number above 20, which names no category, a field that runs past the end, text that is not UTF-8, or bytes
/// left over after the image data.
proof fn lemma_picture_fields(w: Picture)
    ensures
        ({
            let b = picture_bytes(w);
            let m1 = utf8(w.mime_type).len() as int;
            let m2 = utf8(w.description).len() as int;
            &&& valid_utf8(utf8(w.mime_type))
            &&& valid_utf8(utf8(w.description))
            &&& b.subrange(0, 4) == be32(picture_code(w.picture_type))
            &&& b.subrange(4, 8 + m1) == be_field(utf8(w.mime_type))
            &&& b.subrange(8 + m1, 12 + m1 + m2) == be_field(utf8(w.description))
            &&& b.subrange(28 + m1 + m2, 32 + m1 + m2) == be32(w.data@.len() as u32)
            &&& b.len() == 32 + m1 + m2 + w.data@.len()
        }),
{
    let b = picture_bytes(w);
    let m1 = utf8(w.mime_type).len() as int;
    let m2 = utf8(w.description).len() as int;
    encode_utf8_valid_utf8(w.mime_type@);
    encode_utf8_valid_utf8(w.description@);
    assert(b.subrange(0, 4) =~= be32(picture_code(w.picture_type)));
    assert(b.subrange(4, 8 + m1) =~= be_field(utf8(w.mime_type)));
    assert(b.subrange(8 + m1, 12 + m1 + m2) =~= be_field(utf8(w.description)));
    assert(b.subrange(28 + m1 + m2, 32 + m1 + m2) =~= be32(w.data@.len() as u32));
}

#[verifier::rlimit(100)]
#[verifier::spinoff_prover]
pub fn decode_picture(p: &[u8]) -> (r: Result<Picture, TagError>)
    ensures
        r matches Ok(pic) ==> picture_bytes(pic) == p@,
        forall|pic: Picture| picture_fits(pic) && #[trigger] picture_bytes(pic) == p@ ==> r is Ok,
{
    let n = p.len();
    let ghost w = choose|pic: Picture| picture_fits(pic) && #[trigger] picture_bytes(pic) == p@;
    let ghost found = exists|pic: Picture| picture_fits(pic) && #[trigger] picture_bytes(pic) == p@;
    let ghost m1 = utf8(w.mime_type).len() as int;
    let ghost m2 = utf8(w.description).len() as int;
    proof {
        if found {
            lemma_picture_fields(w);
        }
    }
    let (code, pos) = take_be32(p, 0)?;
    proof {
        if found {
            lemma_be32_injective(code, picture_code(w.picture_type));
        }
    }
    assert(found ==> code <= 20);
    let picture_type = match PictureType::from_code(code) {
        Some(t) => t,
        None => return Err(TagError::FormatError),
    };
    let (mime_type, pos) = take_be_string(p, pos)?;
    assert(found ==> pos == 8 + m1);
    let (description, pos) = take_be_string(p, pos)?;
    assert(found ==> pos == 12 + m1 + m2);
    let (width, pos) = take_be32(p, pos)?;
    let (height, pos) = take_be32(p, pos)?;
    let (depth, pos) = take_be32(p, pos)?;
    let (num_colors, pos) = take_be32(p, pos)?;
    assert(found ==> pos == 28 + m1 + m2);
    let (len, pos) = take_be32(p, pos)?;
    proof {
        if found {
            lemma_be32_injective(len, w.data@.len() as u32);
        }
    }
    if n - pos != len as usize {
        return Err(TagError::FormatError);
    }
    let data = copy_range(p, pos, n);
    let pic = Picture { picture_type, mime_type, description, width, height, depth, num_colors, data };
    assert(picture_bytes(pic) =~= p@);
    Ok(pic)
}

/// Reads a length-prefixed field of a Vorbis-comment block at `pos`, as bytes. It succeeds
/// where the bytes there are such a field.
fn take_le_bytes(p: &[u8], pos: usize) -> (r: Result<(Vec<u8>, usize), TagError>)
    ensures
        r matches Ok((b, next)) ==> pos < next <= p@.len() && le_field(b@) == p@.subrange(
            pos as int,
            next as int,
        ),
        forall|t: Seq<u8>|
            t.len() <= u32::MAX && pos + 4 + t.len() <= p@.len() && #[trigger] le_field(t)
                == p@.subrange(pos as int, pos + 4 + t.len()) ==> (r matches Ok((b, next)) && next
                == pos + 4 + t.len() && b@ == t),
{
    let n = p.len();
    if pos > n || n - pos < 4 {
        return Err(TagError::FormatError);
    }
    let len = read_le32(p, pos);
    proof {
        assert forall|t: Seq<u8>|
            t.len() <= u32::MAX && pos + 4 + t.len() <= p@.len() && #[trigger] le_field(t)
                == p@.subrange(pos as int, pos + 4 + t.len()) implies len == t.len() && t
                == p@.subrange(pos + 4, pos + 4 + t.len()) by {
            assert(le_field(t).subrange(0, 4) =~= le32(t.len() as u32));
            assert(p@.subrange(pos as int, pos + 4 + t.len()).subrange(0, 4) =~= p@.subrange(
                pos as int,
                pos + 4,
            ));
            lemma_le32_injective(len, t.len() as u32);
            assert(le_field(t).subrange(4, 4 + t.len() as int) =~= t);
            assert(p@.subrange(pos as int, pos + 4 + t.len()).subrange(4, 4 + t.len() as int)
                =~= p@.subrange(pos + 4, pos + 4 + t.len()));
        }
    }
    if n - pos - 4 < len as usize {
        return Err(TagError::FormatError);
    }
    let next = pos + 4 + len as usize;
    let b = copy_range(p, pos + 4, next);
    assert(le_field(b@) =~= p@.subrange(pos as int, next as int));
    Ok((b, next))
}

/// Whether the text of key `k` holds no `=` byte.
pub open spec fn plain_key(k: String) -> bool {
    !utf8(k).contains(0x3Du8)
}

/// Splits the text of one comment at its first `=` into key and value. It succeeds on the
/// text of a comment whose key holds no `=`.
fn split_entry(text: &Vec<u8>) -> (r: Result<(String, String), TagError>)
    ensures
        r matches Ok(e) ==> entry_text(e) == text@,
        forall|e: (String, String)| plain_key(e.0) && #[trigger] entry_text(e) == text@ ==> r is Ok,
{
    let n = text.len();
    let ghost w = choose|e: (String, String)| plain_key(e.0) && #[trigger] entry_text(e) == text@;
    let ghost found = exists|e: (String, String)| plain_key(e.0) && #[trigger] entry_text(e) == text@;
    let ghost kl = utf8(w.0).len() as int;
    proof {
        if found {
            assert(entry_text(w) == text@);
            assert(text@[kl] == (utf8(w.0) + seq![0x3Du8] + utf8(w.1))[kl]);
            assert(text@[kl] == 0x3Du8);
            assert forall|j: int| 0 <= j < kl implies text@[j] != 0x3Du8 by {
                assert(text@[j] == (utf8(w.0) + seq![0x3Du8] + utf8(w.1))[j]);
                assert(text@[j] == utf8(w.0)[j]);
                if utf8(w.0)[j] == 0x3Du8 {
                    assert(utf8(w.0).contains(0x3Du8));
                }
            }
        }
    }
    let mut i: usize = 0;
    while i < n
        invariant
            n == text@.len(),
            i <= n,
            forall|j: int| 0 <= j < i ==> text@[j] != 0x3Du8,
            found ==> i <= kl && kl < n && text@[kl] == 0x3Du8,
            found ==> forall|j: int| 0 <= j < kl ==> text@[j] != 0x3Du8,
            found ==> entry_text(w) == text@ && plain_key(w.0),
            found == exists|e: (String, String)| plain_key(e.0) && #[trigger] entry_text(e) == text@,
            kl == utf8(w.0).len(),
        decreases n - i,
    {
        if text[i] == 0x3Du8 {
            proof {
                if found {
                    encode_utf8_valid_utf8(w.0@);
                    encode_utf8_valid_utf8(w.1@);
                    assert(i == kl);
                    assert(text@.subrange(0, kl) =~= utf8(w.0));
                    assert(text@.subrange(kl + 1, n as int) =~= utf8(w.1));
                }
            }
            let key = take_string(text.as_slice(), 0, i)?;
            let value = take_string(text.as_slice(), i + 1, n - i - 1)?;
            assert(entry_text((key, value)) =~= text@);
            return Ok((key, value));
        }
        i = i + 1;
    }
    Err(TagError::FormatError)
}

/// Whether the fields of comment block `v` fit their 32-bit lengths and no key holds `=`.
pub open spec fn vorbis_fits(v: VorbisComment) -> bool {
    &&& utf8(v.vendor_string).len() <= u32::MAX
    &&& v.comments@.len() <= u32::MAX
    &&& forall|i: int|
        0 <= i < v.comments@.len() ==> plain_key((#[trigger] v.comments@[i]).0) && entry_text(
            v.comments@[i],
        ).len() <= u32::MAX
}

proof fn lemma_entries_prefix(cs: Seq<(String, String)>, k: int)
    requires
        0 <= k <= cs.len(),
    ensures
        entries_bytes(cs.subrange(0, k)).len() <= entries_bytes(cs).len(),
        entries_bytes(cs).subrange(0, entries_bytes(cs.subrange(0, k)).len() as int)
            == entries_bytes(cs.subrange(0, k)),
    decreases cs.len() - k,
{
    if k < cs.len() {
        lemma_entries_prefix(cs, k + 1);
        let a = entries_bytes(cs.subrange(0, k));
        let b = entries_bytes(cs.subrange(0, k + 1));
        assert(cs.subrange(0, k + 1).drop_last() =~= cs.subrange(0, k));
        assert(b.subrange(0, a.len() as int) =~= a);
        assert(entries_bytes(cs).subrange(0, a.len() as int) =~= b.subrange(0, a.len() as int));
    } else {
        assert(cs.subrange(0, k) =~= cs);
        assert(entries_bytes(cs).subrange(0, entries_bytes(cs).len() as int) =~= entries_bytes(cs));
    }
}

/// Where the comments `cs` lie in `p` from `start`, comment `i` lies right after those before it.
proof fn lemma_entry_at(p: Seq<u8>, start: int, cs: Seq<(String, String)>, i: int)
    requires
        0 <= start <= p.len(),
        0 <= i < cs.len(),
        p.subrange(start, p.len() as int) == entries_bytes(cs),
    ensures
        ({
            let a = entries_bytes(cs.subrange(0, i));
            let f = le_field(entry_text(cs[i]));
            &&& entries_bytes(cs.subrange(0, i + 1)) == a + f
            &&& start + a.len() + f.len() <= p.len()
            &&& p.subrange(start + a.len(), start + a.len() + f.len()) == f
        }),
{
    let all = entries_bytes(cs);
    lemma_entries_prefix(cs, i + 1);
    let a = entries_bytes(cs.subrange(0, i));
    let b = entries_bytes(cs.subrange(0, i + 1));
    assert(cs.subrange(0, i + 1).drop_last() =~= cs.subrange(0, i));
    let f = le_field(entry_text(cs[i]));
    assert(b == a + f);
    let pos = start + a.len();
    assert(p.subrange(pos, pos + f.len()) =~= f) by {
        assert forall|j: int| 0 <= j < f.len() implies p.subrange(pos, pos + f.len())[j] == f[j] by {
            assert(p[pos + j] == all[a.len() + j]);
            assert(all.subrange(0, b.len() as int)[a.len() + j] == b[a.len() + j]);
        }
    }
}

/// Decodes the payload of a Vorbis-comment block. What it returns encodes to exactly `p`; it
/// fails on a field that runs past the end, text that is not UTF-8, a comment without `=`, or
/// bytes left over after the last comment. It succeeds on the payload of any comment block
/// whose fields fit their lengths and whose keys hold no `=`.
#[verifier::rlimit(100)]
#[verifier::spinoff_prover]
pub fn decode_vorbis(p: &[u8]) -> (r: Result<VorbisComment, TagError>)
    ensures
        r matches Ok(v) ==> vorbis_bytes(v) == p@,
        forall|v: VorbisComment| vorbis_fits(v) && #[trigger] vorbis_bytes(v) == p@ ==> r is Ok,
{
    let n = p.len();
    let ghost found = exists|v: VorbisComment| vorbis_fits(v) && #[trigger] vorbis_bytes(v) == p@;
    let ghost w = choose|v: VorbisComment| vorbis_fits(v) && #[trigger] vorbis_bytes(v) == p@;
    let ghost cs = w.comments@;
    let ghost vl = utf8(w.vendor_string).len() as int;
    let ghost all = entries_bytes(cs);
    proof {
        if found {
            encode_utf8_valid_utf8(w.vendor_string@);
            assert(p@.subrange(0, 4 + vl) =~= le_field(utf8(w.vendor_string)));
            assert(p@.subrange(4 + vl, 8 + vl) =~= le32(cs.len() as u32));
            assert(p@.subrange(8 + vl, n as int) =~= all);
        }
    }
    let (vendor, pos) = take_le_bytes(p, 0)?;
    assert(vendor@.subrange(0, vendor@.len() as int) =~= vendor@);
    assert(found ==> vendor@ == utf8(w.vendor_string) && valid_utf8(vendor@));
    let vendor_string = take_string(vendor.as_slice(), 0, vendor.len())?;
    if n - pos < 4 {
        return Err(TagError::FormatError);
    }
    let count = read_le32(p, pos);
    proof {
        if found {
            lemma_le32_injective(count, cs.len() as u32);
        }
    }
    let mut pos = pos + 4;
    let ghost start = pos as int;
    let mut comments: Vec<(String, String)> = Vec::new();
    let mut i: u32 = 0;
    while i < count
        invariant
            i <= count,
            comments@.len() == i,
            4 <= start <= pos <= n,
            n == p@.len(),
            entries_bytes(comments@) == p@.subrange(start, pos as int),
            found == exists|v: VorbisComment| vorbis_fits(v) && #[trigger] vorbis_bytes(v) == p@,
            found ==> {
                &&& vorbis_fits(w)
                &&& count == cs.len()
                &&& cs == w.comments@
                &&& all == entries_bytes(cs)
                &&& p@.subrange(start, n as int) == all
                &&& pos == start + entries_bytes(cs.subrange(0, i as int)).len()
            },
        decreases count - i,
    {
        proof {
            if found {
                lemma_entry_at(p@, start, cs, i as int);
            }
        }
        let (text, next) = take_le_bytes(p, pos)?;
        assert(found ==> plain_key(cs[i as int].0));
        let e = split_entry(&text)?;
        let ghost before = comments@;
        comments.push(e);
        proof {
            assert(start <= pos < next <= p@.len());
            assert(comments@.drop_last() =~= before);
            let a = p@.subrange(start, pos as int);
            let c = p@.subrange(pos as int, next as int);
            assert(p@.subrange(start, next as int) =~= a + c);
        }
        pos = next;
        i = i + 1;
    }
    proof {
        if found {
            assert(cs.subrange(0, i as int) =~= cs);
        }
    }
    if pos != n {
        return Err(TagError::FormatError);
    }
    let v = VorbisComment { vendor_string, comments };
    proof {
        assert(p@.subrange(0, pos as int) =~= p@);
        assert(le32(v.comments@.len() as u32) == le32(count));
        assert(vorbis_bytes(v) =~= p@);
    }
    Ok(v)
}

/// Decodes the payload of a block with type code `code`. What it returns has type code `code`
/// and, but for padding, encodes to exactly `p`.
pub fn decode_payload(code: u8, p: &[u8]) -> (r: Result<Block, TagError>)
    requires
        code < 128,
        p@.len() <= MAX_BLOCK_LEN,
    ensures
        r matches Ok(b) ==> block_code(b) == code && payload_bytes(b).len() == p@.len() && (
        b is PaddingBlock || payload_bytes(b) == p@) && canonical(b),
        code != APPLICATION && code != VORBIS_COMMENT && code != PICTURE ==> r is Ok,
        code == APPLICATION ==> (r is Ok <==> p@.len() >= 4),
        code == PICTURE ==> forall|pic: Picture|
            picture_fits(pic) && #[trigger] picture_bytes(pic) == p@ ==> r is Ok,
        code == VORBIS_COMMENT ==> forall|v: VorbisComment|
            vorbis_fits(v) && #[trigger] vorbis_bytes(v) == p@ ==> r is Ok,
{
    let n = p.len();
    if code == STREAM_INFO {
        Ok(Block::StreamInfoBlock(copy_range(p, 0, n)))
    } else if code == PADDING {
        let b = Block::PaddingBlock(n as u32);
        assert(payload_bytes(b).len() == n);
        Ok(b)
    } else if code == APPLICATION {
        if n < 4 {
            return Err(TagError::FormatError);
        }
        let id = read_be32(p, 0);
        let b = Block::ApplicationBlock(Application { id, data: copy_range(p, 4, n) });
        assert(payload_bytes(b) =~= p@);
        Ok(b)
    } else if code == SEEK_TABLE {
        Ok(Block::SeekTableBlock(copy_range(p, 0, n)))
    } else if code == VORBIS_COMMENT {
        Ok(Block::VorbisCommentBlock(decode_vorbis(p)?))
    } else if code == CUE_SHEET {
        Ok(Block::CueSheetBlock(copy_range(p, 0, n)))
    } else if code == PICTURE {
        Ok(Block::PictureBlock(decode_picture(p)?))
    } else {
        Ok(Block::UnknownBlock(code, copy_range(p, 0, n)))
    }
}

/// The payload length that the header at `pos` declares.
pub open spec fn declared_len(b: Seq<u8>, pos: int) -> int {
    be24_value(b[pos + 1], b[pos + 2], b[pos + 3]) as int
}

/// Whether block `b` is as decoding makes it and decoding its bytes succeeds: its code and
/// payload fit the header, an unknown block carries a code without a decoder of its own, a
/// picture's fields fit their lengths, and a comment block's fields fit theirs with no key
/// holding `=`.
pub open spec fn decodable(b: Block) -> bool {
    &&& canonical(b)
    &&& encodable(b)
    &&& match b {
        Block::PictureBlock(p) => picture_fits(p),
        Block::VorbisCommentBlock(v) => vorbis_fits(v),
        _ => true,
    }
}

/// Decodes the block at `pos`: its last-block flag, the block, and the position after it.
pub fn decode_block(b: &[u8], pos: usize) -> (r: Result<(bool, Block, usize), TagError>)
    ensures
        r matches Ok((last, blk, next)) ==> {
            &&& pos + 4 <= next <= b@.len()
            &&& next == pos + 4 + declared_len(b@, pos as int)
            &&& encodable(blk)
            &&& canonical(blk)
            &&& last == (b@[pos as int] >= 128)
            &&& header_bytes(last, blk) == b@.subrange(pos as int, pos + 4)
            &&& payload_bytes(blk).len() == next - pos - 4
            &&& (blk is PaddingBlock || payload_bytes(blk) == b@.subrange(pos + 4, next as int))
        },
        r is Err ==> r == Err::<(bool, Block, usize), TagError>(TagError::FormatError),
        pos + 4 > b@.len() ==> r is Err,
        pos + 4 <= b@.len() && pos + 4 + declared_len(b@, pos as int) > b@.len() ==> r is Err,
        pos + 4 <= b@.len() && pos + 4 + declared_len(b@, pos as int) <= b@.len() && (
        b@[pos as int] % 128) as u8 != APPLICATION && (b@[pos as int] % 128) as u8 != VORBIS_COMMENT
            && (b@[pos as int] % 128) as u8 != PICTURE ==> r is Ok,
        forall|x: Block, f: bool|
            decodable(x) && pos + 4 + payload_bytes(x).len() <= b@.len() && #[trigger] block_bytes(f, x)
                == b@.subrange(pos as int, pos + 4 + payload_bytes(x).len()) ==> (r matches Ok(
                (last, _, next),
            ) && last == f && next == pos + 4 + payload_bytes(x).len()),
{
    let ghost found = exists|x: Block, f: bool|
        decodable(x) && pos + 4 + payload_bytes(x).len() <= b@.len() && #[trigger] block_bytes(f, x)
            == b@.subrange(pos as int, pos + 4 + payload_bytes(x).len());
    let ghost (w, wf) = choose|x: Block, f: bool|
        decodable(x) && pos + 4 + payload_bytes(x).len() <= b@.len() && #[trigger] block_bytes(f, x)
            == b@.subrange(pos as int, pos + 4 + payload_bytes(x).len());
    let ghost wl = payload_bytes(w).len() as int;
    proof {
        if found {
            let bb = block_bytes(wf, w);
            assert(b@[pos as int] == bb[0]);
            assert(bb.subrange(1, 4) =~= be24(wl as u32));
            assert(b@.subrange(pos + 1, pos + 4) =~= bb.subrange(1, 4));
            assert(bb.subrange(4, 4 + wl) =~= payload_bytes(w));
            assert(b@.subrange(pos + 4, pos + 4 + wl) =~= bb.subrange(4, 4 + wl));
        }
    }
    let n = b.len();
    if pos > n || n - pos < 4 {
        return Err(TagError::FormatError);
    }
    let h = b[pos];
    let last = h >= 128;
    let code: u8 = if last { h - 128 } else { h };
    let len = read_be24(b, pos + 1);
    proof {
        if found {
            lemma_be24_injective(len, wl as u32);
            assert(last == wf);
            assert(code == block_code(w));
        }
    }
    if n - pos - 4 < len as usize {
        return Err(TagError::FormatError);
    }
    let next = pos + 4 + len as usize;
    let payload = vstd::slice::slice_subrange(b, pos + 4, next);
    proof {
        if found {
            assert(payload@ == payload_bytes(w));
            if code == APPLICATION {
                assert(w is ApplicationBlock);
            } else if code == PICTURE {
                assert(w is PictureBlock);
            } else if code == VORBIS_COMMENT {
                assert(w is VorbisCommentBlock);
            }
        }
    }
    let blk = match decode_payload(code, payload) {
        Ok(blk) => blk,
        Err(_) => return Err(TagError::FormatError),
    };
    proof {
        assert(payload_bytes(blk).len() as u32 == len);
        assert(header_bytes(last, blk) =~= b@.subrange(pos as int, pos + 4));
        assert forall|x: Block, f: bool|
            decodable(x) && pos + 4 + payload_bytes(x).len() <= b@.len() && #[trigger] block_bytes(
                f,
                x,
            ) == b@.subrange(pos as int, pos + 4 + payload_bytes(x).len()) implies last == f && next
            == pos + 4 + payload_bytes(x).len() by {
            let bb = block_bytes(f, x);
            let xl = payload_bytes(x).len() as int;
            assert(b@[pos as int] == bb[0]);
            assert(bb.subrange(1, 4) =~= be24(xl as u32));
            assert(b@.subrange(pos + 1, pos + 4) =~= bb.subrange(1, 4));
            lemma_be24_injective(len, xl as u32);
        }
    }
    Ok((last, blk, next))
}

} // verus!
