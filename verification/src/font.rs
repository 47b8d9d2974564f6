//! TrueType fonts: the table directory, character lookup, advance widths and line layout.
//!
//! Only `glyf` outlines are read, characters are looked up in a format 4 subtable of `cmap`,
//! and the numbers of a font are big-endian. Outlines themselves are read in [`crate::glyph`].
use crate::glyph::{
    is_orderly, orderly, parse_simple_glyph, simple_outline, GlyphOutline, GlyphPoint,
};
use vstd::prelude::*;
use vstd::string::StringExecFns;

verus! {

/// The two-byte number at a place.
pub open spec fn word(d: Seq<u8>, at: int) -> int {
    d[at] * 0x100 + d[at + 1]
}

/// The two-byte number at a place, as a signed number.
pub open spec fn signed_word(d: Seq<u8>, at: int) -> int {
    if word(d, at) < 0x8000 {
        word(d, at)
    } else {
        word(d, at) - 0x1_0000
    }
}

/// The four-byte number at a place.
pub open spec fn long(d: Seq<u8>, at: int) -> int {
    word(d, at) * 0x1_0000 + word(d, at + 2)
}

/// The two-byte number at a place.
pub fn u16_at(d: &[u8], at: usize) -> (r: u16)
    requires
        at + 2 <= d.len(),
    ensures
        r == word(d@, at as int),
{
    d[at] as u16 * 0x100 + d[at + 1] as u16
}

/// The two-byte number at a place, as a signed number.
pub fn i16_at(d: &[u8], at: usize) -> (r: i16)
    requires
        at + 2 <= d.len(),
    ensures
        r == signed_word(d@, at as int),
{
    let w: i32 = u16_at(d, at) as i32;
    if w < 0x8000 {
        w as i16
    } else {
        (w - 0x1_0000) as i16
    }
}

/// The four-byte number at a place.
pub fn u32_at(d: &[u8], at: usize) -> (r: u32)
    requires
        at + 4 <= d.len(),
    ensures
        r == long(d@, at as int),
{
    u16_at(d, at) as u32 * 0x1_0000 + u16_at(d, at + 2) as u32
}

/// Why a file is not taken as a font.
#[derive(Debug, Clone)]
pub enum FontError {
    /// The file ends before its table directory does.
    TooShort,
    /// The file does not begin as a TrueType font.
    NotTrueType,
    /// A table that every font has is not in the directory.
    MissingTable(&'static str),
    /// No character table of a known kind.
    UnsupportedCmap,
    /// A table ends too early.
    Malformed(&'static str),
}

/// What is said of a font error.
pub open spec fn font_error_text(e: FontError) -> Seq<char> {
    match e {
        FontError::TooShort => "file is too short to be a font"@,
        FontError::NotTrueType =>
            "not a TrueType font (expected sfnt version 0x00010000) — OTF/CFF fonts aren't supported yet"@,
        FontError::MissingTable(t) => "font is missing the required '"@ + t@ + "' table"@,
        FontError::UnsupportedCmap =>
            "font has no Unicode cmap subtable in a supported format (need format 4)"@,
        FontError::Malformed(what) => "malformed font data: "@ + what@,
    }
}

impl FontError {
    /// What is said of the error.
    pub fn message(&self) -> (r: String)
        ensures
            r@ == font_error_text(*self),
    {
        match self {
            FontError::TooShort => "file is too short to be a font".to_owned(),
            FontError::NotTrueType =>
                "not a TrueType font (expected sfnt version 0x00010000) — OTF/CFF fonts aren't supported yet".to_owned(),
            FontError::MissingTable(t) => {
                let mut text: String = "font is missing the required '".to_owned();
                text.append(t);
                text.append("' table");
                text
            },
            FontError::UnsupportedCmap =>
                "font has no Unicode cmap subtable in a supported format (need format 4)".to_owned(),
            FontError::Malformed(what) => {
                let mut text: String = "malformed font data: ".to_owned();
                text.append(what);
                text
            },
        }
    }
}

/// A font: the bytes of its file, and where in them the tables are.
pub struct Font {
    data: Vec<u8>,
    units_per_em: u16,
    num_glyphs: u16,
    loca_long: bool,
    loca_start: u32,
    glyf_start: u32,
    hmtx_start: u32,
    num_h_metrics: u16,
    cmap_subtable_start: u64,
}

/// What a font is: the bytes of its file, and what its tables say.
pub struct FontModel {
    /// The bytes of the file.
    pub data: Seq<u8>,
    /// How many font units make the size of the font.
    pub units_per_em: int,
    /// How many glyphs there are.
    pub num_glyphs: int,
    /// Whether glyph places are four bytes each.
    pub loca_long: bool,
    /// Where the list of glyph places begins.
    pub loca_start: int,
    /// Where the glyphs begin.
    pub glyf_start: int,
    /// Where the advance widths begin.
    pub hmtx_start: int,
    /// How many glyphs have an advance width of their own.
    pub num_h_metrics: int,
    /// Where the character table begins.
    pub cmap_subtable_start: int,
}

impl View for Font {
    type V = FontModel;

    closed spec fn view(&self) -> FontModel {
        FontModel {
            data: self.data@,
            units_per_em: self.units_per_em as int,
            num_glyphs: self.num_glyphs as int,
            loca_long: self.loca_long,
            loca_start: self.loca_start as int,
            glyf_start: self.glyf_start as int,
            hmtx_start: self.hmtx_start as int,
            num_h_metrics: self.num_h_metrics as int,
            cmap_subtable_start: self.cmap_subtable_start as int,
        }
    }
}

/// Where the record `i` of the table directory begins.
pub open spec fn record_at(i: int) -> int {
    12 + i * 16
}

/// Whether the record `i` of the table directory is for the table with a tag.
pub open spec fn tagged(d: Seq<u8>, i: int, tag: Seq<u8>) -> bool {
    d.subrange(record_at(i), record_at(i) + 4) == tag
}

/// Where the table with a tag begins, by the last of the first `n` records that has the tag.
pub open spec fn table(d: Seq<u8>, n: int, tag: Seq<u8>) -> Option<int>
    decreases n,
{
    if n <= 0 {
        None
    } else if tagged(d, n - 1, tag) {
        Some(long(d, record_at(n - 1) + 8))
    } else {
        table(d, n - 1, tag)
    }
}

/// How many records of the encoding list at `c` the file holds whole.
pub open spec fn encodings(d: Seq<u8>, c: int) -> int {
    let room = (d.len() - c - 4) / 8;
    if word(d, c + 2) < room {
        word(d, c + 2)
    } else {
        room
    }
}

/// Where the encoding record `i` of the list at `c` points.
pub open spec fn encoding_target(d: Seq<u8>, c: int, i: int) -> int {
    c + long(d, c + 4 + i * 8 + 4)
}

/// Whether the encoding record `i` points at a format 4 subtable in the file.
pub open spec fn format4(d: Seq<u8>, c: int, i: int) -> bool {
    let at = encoding_target(d, c, i);
    at + 2 <= d.len() && word(d, at) == 4
}

/// Whether the encoding record `i` is for Windows, Basic Multilingual Plane.
pub open spec fn windows_plane(d: Seq<u8>, c: int, i: int) -> bool {
    word(d, c + 4 + i * 8) == 3 && word(d, c + 4 + i * 8 + 2) == 1
}

/// Whether the encoding record `i` is for the Unicode platform.
pub open spec fn unicode_platform(d: Seq<u8>, c: int, i: int) -> bool {
    word(d, c + 4 + i * 8) == 0
}

/// The format 4 subtable of the first encoding record from `i` on that is for Windows, or for
/// the Unicode platform.
pub open spec fn first_encoding(d: Seq<u8>, c: int, windows: bool, i: int) -> Option<int>
    decreases encodings(d, c) - i,
{
    if i >= encodings(d, c) {
        None
    } else if format4(d, c, i) && (if windows {
        windows_plane(d, c, i)
    } else {
        unicode_platform(d, c, i)
    }) {
        Some(encoding_target(d, c, i))
    } else {
        first_encoding(d, c, windows, i + 1)
    }
}

/// The character table of the `cmap` table at `c`: the first for Windows, and where there is
/// none, the first for the Unicode platform.
pub open spec fn character_table(d: Seq<u8>, c: int) -> Result<int, FontError> {
    if c + 4 > d.len() {
        Err(FontError::Malformed("cmap table truncated"))
    } else {
        match first_encoding(d, c, true, 0) {
            Some(at) => Ok(at),
            None => match first_encoding(d, c, false, 0) {
                Some(at) => Ok(at),
                None => Err(FontError::UnsupportedCmap),
            },
        }
    }
}

/// A table's place, or the error that it is missing.
pub open spec fn needed(d: Seq<u8>, tag: Seq<u8>, name: &'static str) -> Result<int, FontError> {
    match table(d, word(d, 4), tag) {
        Some(at) => Ok(at),
        None => Err(FontError::MissingTable(name)),
    }
}

/// A table's place where the file holds `size` bytes of it.
pub open spec fn whole(
    d: Seq<u8>,
    tag: Seq<u8>,
    name: &'static str,
    size: int,
    cut: &'static str,
) -> Result<int, FontError> {
    match needed(d, tag, name) {
        Ok(at) => if at + size > d.len() {
            Err(FontError::Malformed(cut))
        } else {
            Ok(at)
        },
        Err(e) => Err(e),
    }
}

/// The tag of a table, four letters.
pub open spec fn tag_of(a: char, b: char, c: char, e: char) -> Seq<u8> {
    seq![a as u8, b as u8, c as u8, e as u8]
}

/// What a file is as a font. The tables are looked up in the order `head`, `maxp`, `loca`,
/// `glyf`, `hhea`, `hmtx`, `cmap`, and the first that is amiss gives the error.
pub open spec fn parsed(d: Seq<u8>) -> Result<FontModel, FontError> {
    if d.len() < 12 {
        Err(FontError::TooShort)
    } else if long(d, 0) != 0x0001_0000 {
        Err(FontError::NotTrueType)
    } else if d.len() < record_at(word(d, 4)) {
        Err(FontError::TooShort)
    } else {
        match whole(d, tag_of('h', 'e', 'a', 'd'), "head", 54, "head table truncated") {
            Err(e) => Err(e),
            Ok(head) => match whole(
                d,
                tag_of('m', 'a', 'x', 'p'),
                "maxp",
                6,
                "maxp table truncated",
            ) {
                Err(e) => Err(e),
                Ok(maxp) => match needed(d, tag_of('l', 'o', 'c', 'a'), "loca") {
                    Err(e) => Err(e),
                    Ok(loca) => match needed(d, tag_of('g', 'l', 'y', 'f'), "glyf") {
                        Err(e) => Err(e),
                        Ok(glyf) => match whole(
                            d,
                            tag_of('h', 'h', 'e', 'a'),
                            "hhea",
                            36,
                            "hhea table truncated",
                        ) {
                            Err(e) => Err(e),
                            Ok(hhea) => match needed(d, tag_of('h', 'm', 't', 'x'), "hmtx") {
                                Err(e) => Err(e),
                                Ok(hmtx) => match needed(d, tag_of('c', 'm', 'a', 'p'), "cmap") {
                                    Err(e) => Err(e),
                                    Ok(cmap) => match character_table(d, cmap) {
                                        Err(e) => Err(e),
                                        Ok(characters) => Ok(
                                            FontModel {
                                                data: d,
                                                units_per_em: word(d, head + 18),
                                                num_glyphs: word(d, maxp + 4),
                                                loca_long: word(d, head + 50) != 0,
                                                loca_start: loca,
                                                glyf_start: glyf,
                                                hmtx_start: hmtx,
                                                num_h_metrics: word(d, hhea + 34),
                                                cmap_subtable_start: characters,
                                            },
                                        ),
                                    },
                                },
                            },
                        },
                    },
                },
            },
        }
    }
}

/// Where the table with a tag begins.
fn find_table(d: &[u8], n: usize, a: u8, b: u8, c: u8, e: u8) -> (r: Option<u32>)
    requires
        record_at(n as int) <= d.len(),
    ensures
        match r {
            Some(at) => table(d@, n as int, seq![a, b, c, e]) == Some(at as int),
            None => table(d@, n as int, seq![a, b, c, e]) is None,
        },
{
    let ghost tag = seq![a, b, c, e];
    let mut i: usize = n;
    while i > 0
        invariant
            i <= n,
            record_at(n as int) <= d.len(),
            tag == seq![a, b, c, e],
            table(d@, n as int, tag) == table(d@, i as int, tag),
        decreases i,
    {
        i = i - 1;
        let at: usize = 12 + i * 16;
        let ghost piece = d@.subrange(record_at(i as int), record_at(i as int) + 4);
        assert(piece.len() == 4);
        assert(piece[0] == d@[at as int] && piece[1] == d@[at + 1] && piece[2] == d@[at + 2]
            && piece[3] == d@[at + 3]);
        if d[at] == a && d[at + 1] == b && d[at + 2] == c && d[at + 3] == e {
            assert(piece =~= tag);
            return Some(u32_at(d, at + 8));
        }
        assert(piece != tag) by {
            assert(tag[0] == a && tag[1] == b && tag[2] == c && tag[3] == e);
        }
    }
    None
}

/// A table's place, or the error that it is missing.
fn need_table(
    d: &[u8],
    n: usize,
    a: u8,
    b: u8,
    c: u8,
    e: u8,
    name: &'static str,
) -> (r: Result<u32, FontError>)
    requires
        d.len() >= 12,
        n == word(d@, 4),
        record_at(n as int) <= d.len(),
    ensures
        match r {
            Ok(at) => needed(d@, seq![a, b, c, e], name) == Ok::<int, FontError>(at as int),
            Err(x) => needed(d@, seq![a, b, c, e], name) == Err::<int, FontError>(x),
        },
{
    match find_table(d, n, a, b, c, e) {
        Some(at) => Ok(at),
        None => Err(FontError::MissingTable(name)),
    }
}

/// The character table of the `cmap` table at `c`.
pub fn find_cmap_format4_subtable(d: &[u8], c: u32) -> (r: Result<u64, FontError>)
    ensures
        match r {
            Ok(at) => character_table(d@, c as int) == Ok::<int, FontError>(at as int),
            Err(x) => character_table(d@, c as int) == Err::<int, FontError>(x),
        },
{
    let len: u64 = d.len() as u64;
    let start: u64 = c as u64;
    if start + 4 > len {
        return Err(FontError::Malformed("cmap table truncated"));
    }
    let count: u64 = u16_at(d, (start + 2) as usize) as u64;
    let mut best: Option<u64> = None;
    let mut i: u64 = 0;
    while i < count && start + 4 + i * 8 + 8 <= len
        invariant
            len == d.len(),
            start == c,
            start + 4 <= len,
            count == word(d@, c + 2),
            i <= encodings(d@, c as int),
            first_encoding(d@, c as int, true, 0) == first_encoding(d@, c as int, true, i as int),
            match best {
                Some(b) => first_encoding(d@, c as int, false, 0) == Some(b as int),
                None => first_encoding(d@, c as int, false, 0) == first_encoding(
                    d@,
                    c as int,
                    false,
                    i as int,
                ),
            },
        decreases count - i,
    {
        let rec: usize = (start + 4 + i * 8) as usize;
        let platform: u16 = u16_at(d, rec);
        let encoding: u16 = u16_at(d, rec + 2);
        let at: u64 = start + u32_at(d, rec + 4) as u64;
        assert(at == encoding_target(d@, c as int, i as int));
        assert(i < encodings(d@, c as int));
        if at + 2 <= len {
            let format: u16 = u16_at(d, at as usize);
            if format == 4 {
                if platform == 3 && encoding == 1 {
                    return Ok(at);
                }
                if platform == 0 && best.is_none() {
                    best = Some(at);
                }
            }
        }
        i = i + 1;
    }
    match best {
        Some(b) => Ok(b),
        None => Err(FontError::UnsupportedCmap),
    }
}

/// The first segment from `i` on, of `n`, whose last character is not before `c`; `n` where
/// there is none.
pub open spec fn segment_of(d: Seq<u8>, sub: int, n: int, c: int, i: int) -> int
    decreases n - i,
{
    if i >= n {
        n
    } else if c <= word(d, sub + 14 + i * 2) {
        i
    } else {
        segment_of(d, sub, n, c, i + 1)
    }
}

/// The glyph of a character by the format 4 subtable at `sub`. Each segment has its last
/// character, its first, a number to add, and a distance from where that distance stands to
/// the segment's list of glyphs; distance 0 is no list, and the character itself is added to.
pub open spec fn glyph_of(d: Seq<u8>, sub: int, c: int) -> int {
    let n = word(d, sub + 6) / 2;
    if sub + 14 > d.len() || sub + 16 + n * 8 > d.len() {
        0
    } else {
        let s = segment_of(d, sub, n, c, 0);
        let first = word(d, sub + 16 + n * 2 + s * 2);
        let delta = word(d, sub + 16 + n * 4 + s * 2);
        let at = sub + 16 + n * 6 + s * 2;
        let listed = at + word(d, at) + 2 * (c - first);
        if s == n || c < first {
            0
        } else if word(d, at) == 0 {
            (c + delta) % 0x1_0000
        } else if listed + 2 > d.len() || word(d, listed) == 0 {
            0
        } else {
            (word(d, listed) + delta) % 0x1_0000
        }
    }
}

/// The glyph of a character by the format 4 subtable at `sub`.
pub fn cmap_format4_lookup(d: &[u8], sub: u64, c: u16) -> (r: u16)
    ensures
        r == glyph_of(d@, sub as int, c as int),
{
    let len: u128 = d.len() as u128;
    let base: u128 = sub as u128;
    if base + 14 > len {
        return 0;
    }
    let n: u128 = (u16_at(d, (base + 6) as usize) / 2) as u128;
    let ends: u128 = base + 14;
    let starts: u128 = ends + n * 2 + 2;
    let deltas: u128 = starts + n * 2;
    let offsets: u128 = deltas + n * 2;
    if offsets + n * 2 > len {
        return 0;
    }
    let mut seg: u128 = 0;
    while seg < n
        invariant
            len == d.len(),
            sub + 14 <= len,
            n == word(d@, sub + 6) / 2,
            n <= 0x8000,
            ends == sub + 14,
            starts == ends + n * 2 + 2,
            deltas == starts + n * 2,
            offsets == deltas + n * 2,
            offsets + n * 2 <= len,
            seg <= n,
            segment_of(d@, sub as int, n as int, c as int, 0) == segment_of(
                d@,
                sub as int,
                n as int,
                c as int,
                seg as int,
            ),
        decreases n - seg,
    {
        let end: u16 = u16_at(d, (ends + seg * 2) as usize);
        if c <= end {
            let start: u16 = u16_at(d, (starts + seg * 2) as usize);
            if c < start {
                return 0;
            }
            let delta: u32 = u16_at(d, (deltas + seg * 2) as usize) as u32;
            let at: u128 = offsets + seg * 2;
            let offset: u16 = u16_at(d, at as usize);
            if offset == 0 {
                return ((c as u32 + delta) % 0x1_0000) as u16;
            }
            let listed: u128 = at + offset as u128 + 2 * (c - start) as u128;
            if listed + 2 > len {
                return 0;
            }
            let raw: u16 = u16_at(d, listed as usize);
            if raw == 0 {
                return 0;
            }
            return ((raw as u32 + delta) % 0x1_0000) as u16;
        }
        seg = seg + 1;
    }
    0
}

impl FontModel {
    /// The glyph of a character; 0 where the font has none, or for a character outside the
    /// Basic Multilingual Plane.
    pub open spec fn glyph(self, ch: char) -> int {
        if ch as int > 0xffff {
            0
        } else {
            glyph_of(self.data, self.cmap_subtable_start, ch as int)
        }
    }

    /// The advance width of a glyph. Glyphs past those that have one of their own share the
    /// last; what is not in the file is 0.
    pub open spec fn advance(self, glyph: int) -> int {
        let last = if self.num_h_metrics > 0 { self.num_h_metrics - 1 } else { 0 };
        let at = self.hmtx_start + 4 * (if glyph < last { glyph } else { last });
        if at + 2 > self.data.len() {
            0
        } else {
            word(self.data, at)
        }
    }

    /// Where a glyph begins and ends among the glyphs, none past the end of the file.
    pub open spec fn place(self, glyph: int) -> Option<(int, int)> {
        if self.loca_long {
            let at = self.loca_start + glyph * 4;
            if at + 8 > self.data.len() {
                None
            } else {
                Some((long(self.data, at), long(self.data, at + 4)))
            }
        } else {
            let at = self.loca_start + glyph * 2;
            if at + 4 > self.data.len() {
                None
            } else {
                Some((word(self.data, at) * 2, word(self.data, at + 2) * 2))
            }
        }
    }

    /// Where in the file a simple glyph is, and how many contours it has. None for what is no
    /// glyph, for a glyph without marks, and for one that is made of others.
    pub open spec fn simple_at(self, glyph: int) -> Option<(int, int)> {
        if glyph >= self.num_glyphs {
            None
        } else {
            match self.place(glyph) {
                None => None,
                Some((start, end)) => {
                    let g = self.glyf_start + start;
                    if end <= start || g + 10 > self.data.len() || signed_word(self.data, g) < 0 {
                        None
                    } else {
                        Some((g, signed_word(self.data, g)))
                    }
                },
            }
        }
    }

    /// The contours of a glyph: none where it is not a simple glyph, or not all in the file.
    pub open spec fn outline(self, glyph: int) -> Seq<Seq<GlyphPoint>> {
        match self.simple_at(glyph) {
            None => Seq::empty(),
            Some((g, n)) => match simple_outline(self.data, g, n) {
                None => Seq::empty(),
                Some(contours) => contours,
            },
        }
    }

    /// Whether the contours of a glyph follow each other in its list of points.
    pub open spec fn orderly_glyph(self, glyph: int) -> bool {
        self.simple_at(glyph) matches Some((g, n)) ==> orderly(self.data, g, n)
    }

    /// Where the pen is after the first `n` characters of a text.
    pub open spec fn pen(self, text: Seq<char>, n: int) -> int
        decreases n,
    {
        if n <= 0 {
            0
        } else {
            self.pen(text, n - 1) + self.advance(self.glyph(text[n - 1]))
        }
    }
}

impl Font {
    /// The font that a file is.
    pub fn parse(data: Vec<u8>) -> (r: Result<Font, FontError>)
        ensures
            match r {
                Ok(font) => parsed(data@) == Ok::<FontModel, FontError>(font@),
                Err(e) => parsed(data@) == Err::<FontModel, FontError>(e),
            },
    {
        if data.len() < 12 {
            return Err(FontError::TooShort);
        }
        let d: &[u8] = data.as_slice();
        if u32_at(d, 0) != 0x0001_0000 {
            return Err(FontError::NotTrueType);
        }
        let len: u64 = d.len() as u64;
        let n: usize = u16_at(d, 4) as usize;
        if d.len() < 12 + n * 16 {
            return Err(FontError::TooShort);
        }
        let head: u32 = match need_table(d, n, 'h' as u8, 'e' as u8, 'a' as u8, 'd' as u8, "head") {
            Ok(at) => at,
            Err(e) => return Err(e),
        };
        if head as u64 + 54 > len {
            return Err(FontError::Malformed("head table truncated"));
        }
        let units_per_em: u16 = u16_at(d, head as usize + 18);
        let loca_long: bool = u16_at(d, head as usize + 50) != 0;
        let maxp: u32 = match need_table(d, n, 'm' as u8, 'a' as u8, 'x' as u8, 'p' as u8, "maxp") {
            Ok(at) => at,
            Err(e) => return Err(e),
        };
        if maxp as u64 + 6 > len {
            return Err(FontError::Malformed("maxp table truncated"));
        }
        let num_glyphs: u16 = u16_at(d, maxp as usize + 4);
        let loca_start: u32 = match need_table(d, n, 'l' as u8, 'o' as u8, 'c' as u8, 'a' as u8, "loca") {
            Ok(at) => at,
            Err(e) => return Err(e),
        };
        let glyf_start: u32 = match need_table(d, n, 'g' as u8, 'l' as u8, 'y' as u8, 'f' as u8, "glyf") {
            Ok(at) => at,
            Err(e) => return Err(e),
        };
        let hhea: u32 = match need_table(d, n, 'h' as u8, 'h' as u8, 'e' as u8, 'a' as u8, "hhea") {
            Ok(at) => at,
            Err(e) => return Err(e),
        };
        if hhea as u64 + 36 > len {
            return Err(FontError::Malformed("hhea table truncated"));
        }
        let num_h_metrics: u16 = u16_at(d, hhea as usize + 34);
        let hmtx_start: u32 = match need_table(d, n, 'h' as u8, 'm' as u8, 't' as u8, 'x' as u8, "hmtx") {
            Ok(at) => at,
            Err(e) => return Err(e),
        };
        let cmap: u32 = match need_table(d, n, 'c' as u8, 'm' as u8, 'a' as u8, 'p' as u8, "cmap") {
            Ok(at) => at,
            Err(e) => return Err(e),
        };
        let cmap_subtable_start: u64 = match find_cmap_format4_subtable(d, cmap) {
            Ok(at) => at,
            Err(e) => return Err(e),
        };
        Ok(
            Font {
                data,
                units_per_em,
                num_glyphs,
                loca_long,
                loca_start,
                glyf_start,
                hmtx_start,
                num_h_metrics,
                cmap_subtable_start,
            },
        )
    }

    /// How many font units make the size of the font.
    pub fn units_per_em(&self) -> (r: u16)
        ensures
            r == self@.units_per_em,
    {
        self.units_per_em
    }

    /// The glyph of a character; 0 where the font has none.
    pub fn glyph_id(&self, ch: char) -> (r: u16)
        ensures
            r == self@.glyph(ch),
    {
        let c: u32 = ch as u32;
        if c > 0xffff {
            return 0;
        }
        cmap_format4_lookup(self.data.as_slice(), self.cmap_subtable_start, c as u16)
    }

    /// The advance width of a glyph, in font units.
    pub fn advance_width(&self, glyph_id: u16) -> (r: u16)
        ensures
            r == self@.advance(glyph_id as int),
    {
        let last: u16 = if self.num_h_metrics > 0 {
            self.num_h_metrics - 1
        } else {
            0
        };
        let i: u16 = if glyph_id < last {
            glyph_id
        } else {
            last
        };
        let at: u64 = self.hmtx_start as u64 + i as u64 * 4;
        if at + 2 > self.data.len() as u64 {
            return 0;
        }
        u16_at(self.data.as_slice(), at as usize)
    }

    /// Where a glyph begins and ends among the glyphs.
    fn loca_range(&self, glyph_id: u16) -> (r: Option<(u64, u64)>)
        ensures
            match r {
                Some((start, end)) => self@.place(glyph_id as int) == Some(
                    (start as int, end as int),
                ) && start <= 0xffff_ffff,
                None => self@.place(glyph_id as int) is None,
            },
    {
        let d: &[u8] = self.data.as_slice();
        let len: u64 = d.len() as u64;
        let i: u64 = glyph_id as u64;
        if self.loca_long {
            let a: u64 = self.loca_start as u64 + i * 4;
            if a + 8 > len {
                return None;
            }
            Some((u32_at(d, a as usize) as u64, u32_at(d, a as usize + 4) as u64))
        } else {
            let a: u64 = self.loca_start as u64 + i * 2;
            if a + 4 > len {
                return None;
            }
            Some((u16_at(d, a as usize) as u64 * 2, u16_at(d, a as usize + 2) as u64 * 2))
        }
    }

    /// Where in the file a simple glyph is, and how many contours it has.
    fn find_simple(&self, glyph_id: u16) -> (r: Option<(u64, usize)>)
        ensures
            match r {
                Some((g, n)) => self@.simple_at(glyph_id as int) == Some((g as int, n as int)) && n
                    <= 0x7fff,
                None => self@.simple_at(glyph_id as int) is None,
            },
    {
        if glyph_id >= self.num_glyphs {
            return None;
        }
        let (start, end) = match self.loca_range(glyph_id) {
            Some(range) => range,
            None => return None,
        };
        if end <= start {
            return None;
        }
        let g: u64 = self.glyf_start as u64 + start;
        if g + 10 > self.data.len() as u64 {
            return None;
        }
        let n: i16 = i16_at(self.data.as_slice(), g as usize);
        if n < 0 {
            return None;
        }
        Some((g, n as usize))
    }

    /// Whether the contours of a glyph follow each other in its list of points.
    pub fn is_glyph_orderly(&self, glyph_id: u16) -> (r: bool)
        ensures
            r == self@.orderly_glyph(glyph_id as int),
    {
        match self.find_simple(glyph_id) {
            None => true,
            Some((g, n)) => is_orderly(self.data.as_slice(), g, n),
        }
    }

    /// The contours of a glyph, in font units: none for a glyph without marks or one made of
    /// others.
    pub fn glyph_outline(&self, glyph_id: u16) -> (r: GlyphOutline)
        requires
            self@.orderly_glyph(glyph_id as int),
        ensures
            r@ == self@.outline(glyph_id as int),
    {
        if let Some((g, n)) = self.find_simple(glyph_id) {
            if let Some(outline) = parse_simple_glyph(self.data.as_slice(), g, n) {
                return outline;
            }
        }
        let none = GlyphOutline { contours: Vec::new() };
        assert(none@ =~= Seq::empty());
        none
    }
}

/// One line of text: for each character its glyph and where the pen is, in font units from
/// the start of the line.
pub fn layout_line(font: &Font, text: &str) -> (r: Vec<(u16, u64)>)
    requires
        0xffff * text@.len() <= u64::MAX,
    ensures
        r.len() == text@.len(),
        forall|i: int|
            0 <= i < r.len() ==> (#[trigger] r[i]).0 == font@.glyph(text@[i]) && r[i].1
                == font@.pen(text@, i),
{
    let mut out: Vec<(u16, u64)> = Vec::new();
    let mut pen: u64 = 0;
    for ch in it: text.chars()
        invariant
            0xffff * text@.len() <= u64::MAX,
            it.seq() == text@,
            out.len() == it.index(),
            pen == font@.pen(text@, it.index() as int),
            pen <= 0xffff * it.index(),
            forall|i: int|
                0 <= i < out.len() ==> (#[trigger] out[i]).0 == font@.glyph(text@[i]) && out[i].1
                    == font@.pen(text@, i),
    {
        let id: u16 = font.glyph_id(ch);
        out.push((id, pen));
        pen = pen + font.advance_width(id) as u64;
    }
    out
}

/// A line of text begins at the pen's start and goes on to the right.
pub proof fn pens_go_right(font: FontModel, text: Seq<char>, i: int, j: int)
    requires
        0 <= i <= j,
    ensures
        font.pen(text, 0) == 0,
        font.pen(text, i) <= font.pen(text, j),
    decreases j,
{
    if i < j {
        pens_go_right(font, text, i, j - 1);
    }
}

/// Glyphs past those that have an advance width of their own have that of the last one.
pub proof fn late_glyphs_share_an_advance(font: FontModel, a: int, b: int)
    requires
        font.num_h_metrics - 1 <= a,
        font.num_h_metrics - 1 <= b,
        0 <= a,
        0 <= b,
    ensures
        font.advance(a) == font.advance(b),
{
}

} // verus!
