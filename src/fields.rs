use vstd::prelude::*;
use crate::comments::{joined, key_removed, key_set, key_values};
use crate::tag::FlacTag;

verus! {

/// The value that a tag holds under `key`: its values joined with `", "`, if there are any.
pub open spec fn tag_value(bs: Seq<crate::block::Block>, key: Seq<char>) -> Option<Seq<char>> {
    if key_values(bs, key).len() == 0 {
        None
    } else {
        Some(joined(key_values(bs, key)))
    }
}

/// The characters of an optional string.
pub open spec fn text_of(s: Option<String>) -> Option<Seq<char>> {
    match s {
        Some(t) => Some(t@),
        None => None,
    }
}

/// The digits of an unsigned number as `str::parse` reads them: without a leading `+`.
pub open spec fn unsigned_digits(s: Seq<char>) -> Seq<char> {
    if s.len() > 0 && s[0] == '+' {
        s.drop_first()
    } else {
        s
    }
}

/// Whether `s` is one or more ASCII digits.
pub open spec fn all_digits(s: Seq<char>) -> bool {
    s.len() > 0 && forall|i: int| 0 <= i < s.len() ==> '0' <= #[trigger] s[i] && s[i] <= '9'
}

/// The value of a run of ASCII digits.
pub open spec fn decimal_value(s: Seq<char>) -> int
    decreases s.len(),
{
    if s.len() == 0 {
        0
    } else {
        decimal_value(s.drop_last()) * 10 + ((s.last() as u32) as int - 48)
    }
}

/// The number that `s` spells, where it spells one that fits in 32 bits.
pub open spec fn number_in(s: Seq<char>) -> Option<u32> {
    if all_digits(unsigned_digits(s)) && decimal_value(unsigned_digits(s)) <= u32::MAX {
        Some(decimal_value(unsigned_digits(s)) as u32)
    } else {
        None
    }
}

/// The ASCII digit for `d`, from 0 to 9.
pub open spec fn digit_char(d: nat) -> char {
    if d == 0 { '0' } else if d == 1 { '1' } else if d == 2 { '2' } else if d == 3 { '3' }
    else if d == 4 { '4' } else if d == 5 { '5' } else if d == 6 { '6' } else if d == 7 { '7' }
    else if d == 8 { '8' } else { '9' }
}

/// The decimal digits of `n`, without leading zeros.
pub open spec fn decimal_text(n: nat) -> Seq<char>
    decreases n,
{
    if n < 10 {
        seq![digit_char(n)]
    } else {
        decimal_text(n / 10).push(digit_char(n % 10))
    }
}

/// Relies on `str::parse::<u32>`: it accepts an optional `+` then one or more ASCII digits
/// whose value fits in 32 bits, and gives that value.
#[verifier::external_body]
fn parse_u32(s: &str) -> (r: Option<u32>)
    ensures
        r == number_in(s@),
{
    s.parse::<u32>().ok()
}

/// Relies on `u32::to_string`: the decimal digits of the value, without sign or leading
/// zeros.
#[verifier::external_body]
fn decimal_string(n: u32) -> (r: String)
    ensures
        r@ == decimal_text(n as nat),
{
    n.to_string()
}

/// The number stored under a comment value, where there is one and it reads as a number.
pub open spec fn number_value(bs: Seq<crate::block::Block>, key: Seq<char>) -> Option<u32> {
    match tag_value(bs, key) {
        Some(t) => number_in(t),
        None => None,
    }
}

impl FlacTag {
    fn get_text(&self, key: &str) -> (r: Option<String>)
        ensures
            text_of(r) == tag_value(self.blocks@, key@),
    {
        self.get_vorbis_key(&key.to_owned())
    }

    fn get_number(&self, key: &str) -> (r: Option<u32>)
        ensures
            r == number_value(self.blocks@, key@),
    {
        match self.get_text(key) {
            Some(t) => parse_u32(t.as_str()),
            None => None,
        }
    }

    fn set_text(&mut self, key: &str, value: String)
        ensures
            key_set(old(self).blocks@, final(self).blocks@, key@, seq![value]),
            final(self).path == old(self).path,
    {
        let values = vec![value];
        assert(values@ =~= seq![value]);
        self.set_vorbis_key(key.to_owned(), values);
    }

    fn set_sorted_text(&mut self, sort_key: &str, key: &str, value: String)
        ensures
            exists|mid: Seq<crate::block::Block>|
                key_removed(old(self).blocks@, mid, sort_key@) && key_set(
                    mid,
                    final(self).blocks@,
                    key@,
                    seq![value],
                ),
            final(self).path == old(self).path,
    {
        self.remove_vorbis_key(&sort_key.to_owned());
        let ghost mid = self.blocks@;
        self.set_text(key, value);
        assert(key_removed(old(self).blocks@, mid, sort_key@));
    }

    fn set_number(&mut self, key: &str, n: u32)
        ensures
            exists|s: String|
                s@ == decimal_text(n as nat) && key_set(
                    old(self).blocks@,
                    final(self).blocks@,
                    key@,
                    seq![s],
                ),
            final(self).path == old(self).path,
    {
        let s = decimal_string(n);
        let ghost sv = s;
        self.set_text(key, s);
        assert(sv@ == decimal_text(n as nat));
    }

    fn remove_two(&mut self, first: &str, second: &str)
        ensures
            exists|mid: Seq<crate::block::Block>|
                key_removed(old(self).blocks@, mid, first@) && key_removed(
                    mid,
                    final(self).blocks@,
                    second@,
                ),
            final(self).path == old(self).path,
    {
        self.remove_vorbis_key(&first.to_owned());
        let ghost mid = self.blocks@;
        self.remove_vorbis_key(&second.to_owned());
        assert(key_removed(old(self).blocks@, mid, first@));
    }

    fn remove_text(&mut self, key: &str)
        ensures
            key_removed(old(self).blocks@, final(self).blocks@, key@),
            final(self).path == old(self).path,
    {
        self.remove_vorbis_key(&key.to_owned());
    }

    /// The artist.
    pub fn artist(&self) -> (r: Option<String>)
        ensures
            text_of(r) == tag_value(self.blocks@, "ARTIST"@),
    {
        self.get_text("ARTIST")
    }

    /// Sets the artist and clears its sort form.
    pub fn set_artist(&mut self, artist: String)
        ensures
            exists|mid: Seq<crate::block::Block>|
                key_removed(old(self).blocks@, mid, "ARTISTSORT"@) && key_set(
                    mid,
                    final(self).blocks@,
                    "ARTIST"@,
                    seq![artist],
                ),
            final(self).path == old(self).path,
    {
        self.set_sorted_text("ARTISTSORT", "ARTIST", artist);
    }

    /// Removes the artist and its sort form.
    pub fn remove_artist(&mut self)
        ensures
            exists|mid: Seq<crate::block::Block>|
                key_removed(old(self).blocks@, mid, "ARTISTSORT"@) && key_removed(
                    mid,
                    final(self).blocks@,
                    "ARTIST"@,
                ),
            final(self).path == old(self).path,
    {
        self.remove_two("ARTISTSORT", "ARTIST");
    }

    /// The album.
    pub fn album(&self) -> (r: Option<String>)
        ensures
            text_of(r) == tag_value(self.blocks@, "ALBUM"@),
    {
        self.get_text("ALBUM")
    }

    /// Sets the album and clears its sort form.
    pub fn set_album(&mut self, album: String)
        ensures
            exists|mid: Seq<crate::block::Block>|
                key_removed(old(self).blocks@, mid, "ALBUMSORT"@) && key_set(
                    mid,
                    final(self).blocks@,
                    "ALBUM"@,
                    seq![album],
                ),
            final(self).path == old(self).path,
    {
        self.set_sorted_text("ALBUMSORT", "ALBUM", album);
    }

    /// Removes the album and its sort form.
    pub fn remove_album(&mut self)
        ensures
            exists|mid: Seq<crate::block::Block>|
                key_removed(old(self).blocks@, mid, "ALBUMSORT"@) && key_removed(
                    mid,
                    final(self).blocks@,
                    "ALBUM"@,
                ),
            final(self).path == old(self).path,
    {
        self.remove_two("ALBUMSORT", "ALBUM");
    }

    /// The genre.
    pub fn genre(&self) -> (r: Option<String>)
        ensures
            text_of(r) == tag_value(self.blocks@, "GENRE"@),
    {
        self.get_text("GENRE")
    }

    /// Sets the genre.
    pub fn set_genre(&mut self, genre: String)
        ensures
            key_set(old(self).blocks@, final(self).blocks@, "GENRE"@, seq![genre]),
            final(self).path == old(self).path,
    {
        self.set_text("GENRE", genre);
    }

    /// Removes the genre.
    pub fn remove_genre(&mut self)
        ensures
            key_removed(old(self).blocks@, final(self).blocks@, "GENRE"@),
            final(self).path == old(self).path,
    {
        self.remove_text("GENRE");
    }

    /// The title.
    pub fn title(&self) -> (r: Option<String>)
        ensures
            text_of(r) == tag_value(self.blocks@, "TITLE"@),
    {
        self.get_text("TITLE")
    }

    /// Sets the title and clears its sort form.
    pub fn set_title(&mut self, title: String)
        ensures
            exists|mid: Seq<crate::block::Block>|
                key_removed(old(self).blocks@, mid, "TITLESORT"@) && key_set(
                    mid,
                    final(self).blocks@,
                    "TITLE"@,
                    seq![title],
                ),
            final(self).path == old(self).path,
    {
        self.set_sorted_text("TITLESORT", "TITLE", title);
    }

    /// Removes the title and its sort form.
    pub fn remove_title(&mut self)
        ensures
            exists|mid: Seq<crate::block::Block>|
                key_removed(old(self).blocks@, mid, "TITLESORT"@) && key_removed(
                    mid,
                    final(self).blocks@,
                    "TITLE"@,
                ),
            final(self).path == old(self).path,
    {
        self.remove_two("TITLESORT", "TITLE");
    }

    /// The track number, where it reads as a number.
    pub fn track(&self) -> (r: Option<u32>)
        ensures
            r == number_value(self.blocks@, "TRACKNUMBER"@),
    {
        self.get_number("TRACKNUMBER")
    }

    /// Sets the track number.
    pub fn set_track(&mut self, track: u32)
        ensures
            exists|s: String|
                s@ == decimal_text(track as nat) && key_set(
                    old(self).blocks@,
                    final(self).blocks@,
                    "TRACKNUMBER"@,
                    seq![s],
                ),
            final(self).path == old(self).path,
    {
        self.set_number("TRACKNUMBER", track);
    }

    /// Removes the track number and the track count.
    pub fn remove_track(&mut self)
        ensures
            exists|mid: Seq<crate::block::Block>|
                key_removed(old(self).blocks@, mid, "TRACKNUMBER"@) && key_removed(
                    mid,
                    final(self).blocks@,
                    "TOTALTRACKS"@,
                ),
            final(self).path == old(self).path,
    {
        self.remove_two("TRACKNUMBER", "TOTALTRACKS");
    }

    /// The number of tracks, where it reads as a number.
    pub fn total_tracks(&self) -> (r: Option<u32>)
        ensures
            r == number_value(self.blocks@, "TOTALTRACKS"@),
    {
        self.get_number("TOTALTRACKS")
    }

    /// Sets the number of tracks.
    pub fn set_total_tracks(&mut self, total_tracks: u32)
        ensures
            exists|s: String|
                s@ == decimal_text(total_tracks as nat) && key_set(
                    old(self).blocks@,
                    final(self).blocks@,
                    "TOTALTRACKS"@,
                    seq![s],
                ),
            final(self).path == old(self).path,
    {
        self.set_number("TOTALTRACKS", total_tracks);
    }

    /// Removes the number of tracks.
    pub fn remove_total_tracks(&mut self)
        ensures
            key_removed(old(self).blocks@, final(self).blocks@, "TOTALTRACKS"@),
            final(self).path == old(self).path,
    {
        self.remove_text("TOTALTRACKS");
    }

    /// The album artist.
    pub fn album_artist(&self) -> (r: Option<String>)
        ensures
            text_of(r) == tag_value(self.blocks@, "ALBUMARTIST"@),
    {
        self.get_text("ALBUMARTIST")
    }

    /// Sets the album artist and clears its sort form.
    pub fn set_album_artist(&mut self, album_artist: String)
        ensures
            exists|mid: Seq<crate::block::Block>|
                key_removed(old(self).blocks@, mid, "ALBUMARTISTSORT"@) && key_set(
                    mid,
                    final(self).blocks@,
                    "ALBUMARTIST"@,
                    seq![album_artist],
                ),
            final(self).path == old(self).path,
    {
        self.set_sorted_text("ALBUMARTISTSORT", "ALBUMARTIST", album_artist);
    }

    /// Removes the album artist and its sort form.
    pub fn remove_album_artist(&mut self)
        ensures
            exists|mid: Seq<crate::block::Block>|
                key_removed(old(self).blocks@, mid, "ALBUMARTISTSORT"@) && key_removed(
                    mid,
                    final(self).blocks@,
                    "ALBUMARTIST"@,
                ),
            final(self).path == old(self).path,
    {
        self.remove_two("ALBUMARTISTSORT", "ALBUMARTIST");
    }

    /// The lyrics.
    pub fn lyrics(&self) -> (r: Option<String>)
        ensures
            text_of(r) == tag_value(self.blocks@, "LYRICS"@),
    {
        self.get_text("LYRICS")
    }

    /// Sets the lyrics.
    pub fn set_lyrics(&mut self, lyrics: String)
        ensures
            key_set(old(self).blocks@, final(self).blocks@, "LYRICS"@, seq![lyrics]),
            final(self).path == old(self).path,
    {
        self.set_text("LYRICS", lyrics);
    }

    /// Removes the lyrics.
    pub fn remove_lyrics(&mut self)
        ensures
            key_removed(old(self).blocks@, final(self).blocks@, "LYRICS"@),
            final(self).path == old(self).path,
    {
        self.remove_text("LYRICS");
    }
}

} // verus!
