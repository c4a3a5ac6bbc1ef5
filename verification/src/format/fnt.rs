//! The description of a bitmap font, decoded from the bytes of its text.
//!
//! The text is read line by line. A line that starts with `common` gives
//! the measures of the face, a line that starts with `chars` announces the
//! number of glyphs, and a line that starts with `char` describes one
//! glyph; every other line is passed over. Behind the first word of such a
//! line stand words of the form `key=value`.

use glam::{IVec2, UVec2};
use vstd::prelude::*;
use vstd::string::StrSliceExecFns;
use vstd::utf8::{decode_utf8, valid_utf8};

verus! {

/// One glyph of a font: the character, and where it lies in the image.
#[derive(Debug)]
pub struct FontGlyph {
    pub id: char,
    pub position: UVec2,
    pub size: UVec2,
    pub offset: IVec2,
}

/// A font: the measures of its image and of its lines, and its glyphs in
/// the order of the description.
#[derive(Debug)]
pub struct FontFace {
    pub width: usize,
    pub height: usize,
    pub line_height: u32,
    pub base: u32,
    pub glyphs: Vec<FontGlyph>,
}

/// What a font holds.
pub struct FontFaceView {
    pub width: usize,
    pub height: usize,
    pub line_height: u32,
    pub base: u32,
    pub glyphs: Seq<FontGlyph>,
}

impl View for FontFace {
    type V = FontFaceView;

    open spec fn view(&self) -> FontFaceView {
        FontFaceView {
            width: self.width,
            height: self.height,
            line_height: self.line_height,
            base: self.base,
            glyphs: self.glyphs@,
        }
    }
}

/// Whether `c` is a letter, as `char::is_alphabetic` says.
pub uninterp spec fn alphabetic(c: char) -> bool;

/// Whether `c` is white space, as `char::is_whitespace` says.
pub uninterp spec fn whitespace(c: char) -> bool;

/// std's `core::str::from_utf8`: the text that the bytes spell, where they
/// are well-formed UTF-8, and nothing where they are not. The text is
/// handed on as the row of its characters.
#[verifier::external_body]
fn text_of(bytes: &[u8]) -> (r: Option<Vec<char>>)
    ensures
        r is Some <==> valid_utf8(bytes@),
        r matches Some(text) ==> text@ == decode_utf8(bytes@),
{
    match core::str::from_utf8(bytes) {
        Ok(text) => Some(text.chars().collect()),
        Err(_) => None,
    }
}

/// std's `char::is_alphabetic`: whether `c` has the property Alphabetic of
/// Unicode. The contract only names the answer.
#[verifier::external_body]
fn is_alphabetic(c: char) -> (r: bool)
    ensures
        r == alphabetic(c),
{
    c.is_alphabetic()
}

/// std's `char::is_whitespace`: whether `c` has the property White_Space of
/// Unicode. The contract only names the answer.
#[verifier::external_body]
fn is_whitespace(c: char) -> (r: bool)
    ensures
        r == whitespace(c),
{
    c.is_whitespace()
}

/// std's `char::from_u32`: the character with the number `v`, where `v` is
/// a scalar value of Unicode, that is, no more than 0x10FFFF and no
/// surrogate.
#[verifier::external_body]
fn char_of(v: u32) -> (r: Option<char>)
    ensures
        r == scalar(v),
{
    char::from_u32(v)
}

/// The texts of a row.
pub open spec fn texts(v: Seq<Vec<char>>) -> Seq<Seq<char>> {
    v.map_values(|l: Vec<char>| l@)
}

/// `cur` as a row of one text, or of none where it is empty.
pub open spec fn pending(cur: Seq<char>) -> Seq<Seq<char>> {
    if cur.len() > 0 {
        seq![cur]
    } else {
        Seq::empty()
    }
}

/// `line` without a carriage return at its end.
pub open spec fn without_return(line: Seq<char>) -> Seq<char> {
    if line.len() > 0 && line.last() == '\r' {
        line.drop_last()
    } else {
        line
    }
}

/// The lines of `t` from `i` on, where `cur` was read of the current line:
/// a line ends with a line feed, before which a carriage return is left
/// out, or with the text; nothing follows the last line feed.
pub open spec fn lines_from(t: Seq<char>, i: int, cur: Seq<char>) -> Seq<Seq<char>>
    decreases t.len() - i,
{
    if i < 0 || i >= t.len() {
        pending(cur)
    } else if t[i] == '\n' {
        seq![without_return(cur)] + lines_from(t, i + 1, Seq::empty())
    } else {
        lines_from(t, i + 1, cur.push(t[i]))
    }
}

/// The lines of a text.
pub open spec fn lines_of(t: Seq<char>) -> Seq<Seq<char>> {
    lines_from(t, 0, Seq::empty())
}

/// The words of `l` from `i` on, where `cur` was read of the current word:
/// a word is a row of characters that are not white space, as long as it
/// can be.
pub open spec fn words_from(l: Seq<char>, i: int, cur: Seq<char>) -> Seq<Seq<char>>
    decreases l.len() - i,
{
    if i < 0 || i >= l.len() {
        pending(cur)
    } else if whitespace(l[i]) {
        pending(cur) + words_from(l, i + 1, Seq::empty())
    } else {
        words_from(l, i + 1, cur.push(l[i]))
    }
}

/// The words of a line.
pub open spec fn words_of(l: Seq<char>) -> Seq<Seq<char>> {
    words_from(l, 0, Seq::empty())
}

/// Whether `l` starts with `word`.
pub open spec fn starts_with(l: Seq<char>, word: Seq<char>) -> bool {
    word.len() <= l.len() && l.subrange(0, word.len() as int) == word
}

/// The place of the first character of `w` from `i` on that is no letter.
pub open spec fn letters_end(w: Seq<char>, i: int) -> int
    decreases w.len() - i,
{
    if 0 <= i < w.len() && alphabetic(w[i]) {
        letters_end(w, i + 1)
    } else {
        i
    }
}

/// The key and the value of a word `key=value`: the key is made of the
/// letters that the word starts with, and an equals sign has to follow
/// them.
pub open spec fn key_value(w: Seq<char>) -> Option<(Seq<char>, Seq<char>)> {
    let p = letters_end(w, 0);
    if 0 <= p < w.len() && w[p] == '=' {
        Some((w.subrange(0, p), w.subrange(p + 1, w.len() as int)))
    } else {
        None
    }
}

/// The number that a decimal digit stands for.
pub open spec fn digit(c: char) -> Option<nat> {
    if '0' <= c <= '9' {
        Some((c as u32 - '0' as u32) as nat)
    } else {
        None
    }
}

/// The number that a row of decimal digits stands for; nothing where a
/// character is no digit.
pub open spec fn digits(d: Seq<char>) -> Option<nat>
    decreases d.len(),
{
    if d.len() == 0 {
        Some(0)
    } else {
        match (digits(d.drop_last()), digit(d.last())) {
            (Some(high), Some(low)) => Some(high * 10 + low),
            _ => None,
        }
    }
}

/// The number that `s` spells, if it is no more than `max`: a plus sign
/// may stand before the digits, of which there has to be one at least.
pub open spec fn unsigned(s: Seq<char>, max: nat) -> Option<nat> {
    let d = if s.len() > 0 && s[0] == '+' {
        s.skip(1)
    } else {
        s
    };
    match digits(d) {
        Some(n) => if d.len() > 0 && n <= max {
            Some(n)
        } else {
            None
        },
        None => None,
    }
}

/// The number that `s` spells, if it fits 32 bits with a sign: a plus or a
/// minus sign may stand before the digits, of which there has to be one at
/// least.
pub open spec fn signed(s: Seq<char>) -> Option<int> {
    if s.len() > 0 && s[0] == '-' {
        match digits(s.skip(1)) {
            Some(n) => if s.len() > 1 && n <= 0x8000_0000 {
                Some(-(n as int))
            } else {
                None
            },
            None => None,
        }
    } else {
        match unsigned(s, 0x7fff_ffff) {
            Some(n) => Some(n as int),
            None => None,
        }
    }
}

/// The number that `s` spells, if it fits 32 bits without a sign.
pub open spec fn as_u32(s: Seq<char>) -> Option<u32> {
    match unsigned(s, u32::MAX as nat) {
        Some(n) => Some(n as u32),
        None => None,
    }
}

/// The number that `s` spells, if it fits the size of the machine.
pub open spec fn as_usize(s: Seq<char>) -> Option<usize> {
    match unsigned(s, usize::MAX as nat) {
        Some(n) => Some(n as usize),
        None => None,
    }
}

/// The number that `s` spells, if it fits 32 bits with a sign.
pub open spec fn as_i32(s: Seq<char>) -> Option<i32> {
    match signed(s) {
        Some(n) => Some(n as i32),
        None => None,
    }
}

/// What was read of a font so far.
pub struct FaceState {
    pub width: Option<usize>,
    pub height: Option<usize>,
    pub line_height: Option<u32>,
    pub base: Option<u32>,
    pub glyphs: Seq<FontGlyph>,
}

/// What was read of a glyph so far.
pub struct GlyphState {
    pub id: Option<char>,
    pub x: Option<u32>,
    pub y: Option<u32>,
    pub width: Option<u32>,
    pub height: Option<u32>,
    pub xoffset: Option<i32>,
    pub yoffset: Option<i32>,
}

/// Nothing read of a font.
pub open spec fn no_face() -> FaceState {
    FaceState { width: None, height: None, line_height: None, base: None, glyphs: Seq::empty() }
}

/// Nothing read of a glyph.
pub open spec fn no_glyph() -> GlyphState {
    GlyphState {
        id: None,
        x: None,
        y: None,
        width: None,
        height: None,
        xoffset: None,
        yoffset: None,
    }
}

/// The state of a font after a measure was read: the value is taken where
/// it is a number, and is forgotten where it is not.
pub open spec fn with_measure(st: FaceState, key: Seq<char>, value: Seq<char>) -> FaceState {
    if key == "lineHeight"@ {
        FaceState { line_height: as_u32(value), ..st }
    } else if key == "base"@ {
        FaceState { base: as_u32(value), ..st }
    } else if key == "scaleW"@ {
        FaceState { width: as_usize(value), ..st }
    } else if key == "scaleH"@ {
        FaceState { height: as_usize(value), ..st }
    } else {
        st
    }
}

/// The state of a font after the words of a `common` line from `i` on were
/// read; nothing where a word is not of the form `key=value`.
pub open spec fn common_from(words: Seq<Seq<char>>, i: int, st: FaceState) -> Option<FaceState>
    decreases words.len() - i,
{
    if i < 0 || i >= words.len() {
        Some(st)
    } else {
        match key_value(words[i]) {
            None => None,
            Some((key, value)) => common_from(words, i + 1, with_measure(st, key, value)),
        }
    }
}

/// Whether the words of a `chars` line from `i` on announce a number of
/// glyphs: the first word with the key `count` has to hold a number, and
/// every word before it has to be of the form `key=value`.
pub open spec fn count_from(words: Seq<Seq<char>>, i: int) -> bool
    decreases words.len() - i,
{
    if i < 0 || i >= words.len() {
        false
    } else {
        match key_value(words[i]) {
            None => false,
            Some((key, value)) => if key == "count"@ {
                as_usize(value) is Some
            } else {
                count_from(words, i + 1)
            },
        }
    }
}

/// The character with the number `v`, where there is one.
pub open spec fn scalar(v: u32) -> Option<char> {
    if v < 0xD800 || 0xE000 <= v <= 0x10FFFF {
        Some(v as char)
    } else {
        None
    }
}

/// The state of a glyph after a property was read; nothing where the
/// property `id` holds a number that is no character. A value is taken
/// where it is a number, and is forgotten where it is not.
pub open spec fn with_property(g: GlyphState, key: Seq<char>, value: Seq<char>) -> Option<
    GlyphState,
> {
    if key == "id"@ {
        match as_u32(value) {
            Some(v) => match scalar(v) {
                Some(c) => Some(GlyphState { id: Some(c), ..g }),
                None => None,
            },
            None => Some(GlyphState { id: None, ..g }),
        }
    } else if key == "x"@ {
        Some(GlyphState { x: as_u32(value), ..g })
    } else if key == "y"@ {
        Some(GlyphState { y: as_u32(value), ..g })
    } else if key == "width"@ {
        Some(GlyphState { width: as_u32(value), ..g })
    } else if key == "height"@ {
        Some(GlyphState { height: as_u32(value), ..g })
    } else if key == "xoffset"@ {
        Some(GlyphState { xoffset: as_i32(value), ..g })
    } else if key == "yoffset"@ {
        Some(GlyphState { yoffset: as_i32(value), ..g })
    } else {
        Some(g)
    }
}

/// The state of a glyph after the words of a `char` line from `i` on were
/// read.
pub open spec fn glyph_from(words: Seq<Seq<char>>, i: int, g: GlyphState) -> Option<GlyphState>
    decreases words.len() - i,
{
    if i < 0 || i >= words.len() {
        Some(g)
    } else {
        match key_value(words[i]) {
            None => None,
            Some((key, value)) => match with_property(g, key, value) {
                None => None,
                Some(next) => glyph_from(words, i + 1, next),
            },
        }
    }
}

/// The glyph that was read, where all of its properties were.
pub open spec fn glyph_of(g: GlyphState) -> Option<FontGlyph> {
    match g {
        GlyphState {
            id: Some(id),
            x: Some(x),
            y: Some(y),
            width: Some(width),
            height: Some(height),
            xoffset: Some(xoffset),
            yoffset: Some(yoffset),
        } => Some(
            FontGlyph {
                id,
                position: UVec2 { x, y },
                size: UVec2 { x: width, y: height },
                offset: IVec2 { x: xoffset, y: yoffset },
            },
        ),
        _ => None,
    }
}

/// The state of a font after a line was read; nothing where the line is
/// of a kind that is read and does not hold what it has to.
pub open spec fn after_line(st: FaceState, line: Seq<char>) -> Option<FaceState> {
    if starts_with(line, "info"@) {
        Some(st)
    } else if starts_with(line, "common"@) {
        common_from(words_of(line), 1, st)
    } else if starts_with(line, "chars"@) {
        if count_from(words_of(line), 1) {
            Some(st)
        } else {
            None
        }
    } else if starts_with(line, "char"@) {
        match glyph_from(words_of(line), 1, no_glyph()) {
            Some(g) => match glyph_of(g) {
                Some(glyph) => Some(FaceState { glyphs: st.glyphs.push(glyph), ..st }),
                None => None,
            },
            None => None,
        }
    } else {
        Some(st)
    }
}

/// The state of a font after the lines from `i` on were read.
pub open spec fn after_lines(lines: Seq<Seq<char>>, i: int, st: FaceState) -> Option<FaceState>
    decreases lines.len() - i,
{
    if i < 0 || i >= lines.len() {
        Some(st)
    } else {
        match after_line(st, lines[i]) {
            None => None,
            Some(next) => after_lines(lines, i + 1, next),
        }
    }
}

/// The font that was read, where all of its measures were.
pub open spec fn face_of(st: FaceState) -> Option<FontFaceView> {
    match st {
        FaceState {
            width: Some(width),
            height: Some(height),
            line_height: Some(line_height),
            base: Some(base),
            glyphs,
        } => Some(FontFaceView { width, height, line_height, base, glyphs }),
        _ => None,
    }
}

/// The font that a text describes.
pub open spec fn font_of_text(t: Seq<char>) -> Option<FontFaceView> {
    match after_lines(lines_of(t), 0, no_face()) {
        Some(st) => face_of(st),
        None => None,
    }
}

/// The font that the bytes of a description stand for: they have to be
/// well-formed UTF-8, every line that is read has to hold what it has to,
/// and all four measures of the face have to be given.
pub open spec fn font_of(bytes: Seq<u8>) -> Option<FontFaceView> {
    if valid_utf8(bytes) {
        font_of_text(decode_utf8(bytes))
    } else {
        None
    }
}

/// The characters of `v` from `from` up to `to`.
fn part(v: &Vec<char>, from: usize, to: usize) -> (r: Vec<char>)
    requires
        from <= to <= v@.len(),
    ensures
        r@ == v@.subrange(from as int, to as int),
{
    vstd::slice::slice_to_vec(vstd::slice::slice_subrange(v.as_slice(), from, to))
}

/// Whether `l` is the word `word`.
fn is_word(l: &Vec<char>, word: &str) -> (r: bool)
    ensures
        r == (l@ == word@),
{
    let n = word.unicode_len();
    if l.len() != n {
        return false;
    }
    let mut i: usize = 0;
    while i < n
        invariant
            n == word@.len(),
            n == l@.len(),
            i <= n,
            forall|j: int| 0 <= j < i ==> l@[j] == word@[j],
        decreases n - i,
    {
        if l[i] != word.get_char(i) {
            return false;
        }
        i = i + 1;
    }
    proof {
        assert(l@ =~= word@);
    }
    true
}

/// Whether `l` starts with `word`.
fn has_prefix(l: &Vec<char>, word: &str) -> (r: bool)
    ensures
        r == starts_with(l@, word@),
{
    let n = word.unicode_len();
    if l.len() < n {
        return false;
    }
    let mut i: usize = 0;
    while i < n
        invariant
            n == word@.len(),
            n <= l@.len(),
            i <= n,
            forall|j: int| 0 <= j < i ==> l@[j] == word@[j],
        decreases n - i,
    {
        if l[i] != word.get_char(i) {
            proof {
                assert(l@.subrange(0, n as int)[i as int] == l@[i as int]);
            }
            return false;
        }
        i = i + 1;
    }
    proof {
        assert(l@.subrange(0, n as int) =~= word@);
    }
    true
}

/// Cuts a text into its lines.
pub fn split_lines(t: &Vec<char>) -> (lines: Vec<Vec<char>>)
    ensures
        texts(lines@) == lines_of(t@),
{
    let mut lines: Vec<Vec<char>> = Vec::new();
    let mut cur: Vec<char> = Vec::new();
    let mut i: usize = 0;
    proof {
        assert(texts(lines@) + lines_from(t@, 0, cur@) =~= lines_of(t@));
    }
    while i < t.len()
        invariant
            i <= t@.len(),
            lines_of(t@) == texts(lines@) + lines_from(t@, i as int, cur@),
        decreases t@.len() - i,
    {
        let ghost had = texts(lines@);
        let ghost read = cur@;
        let c = t[i];
        if c == '\n' {
            let n = cur.len();
            if n > 0 && cur[n - 1] == '\r' {
                cur.pop();
            }
            proof {
                assert(cur@ =~= without_return(read));
            }
            lines.push(cur);
            cur = Vec::new();
            proof {
                let rest = lines_from(t@, i as int + 1, Seq::empty());
                assert(texts(lines@) =~= had + seq![without_return(read)]);
                assert(had + (seq![without_return(read)] + rest) =~= (had + seq![
                    without_return(read),
                ]) + rest);
            }
        } else {
            cur.push(c);
        }
        i = i + 1;
    }
    if cur.len() > 0 {
        let ghost had = texts(lines@);
        let ghost read = cur@;
        lines.push(cur);
        proof {
            assert(texts(lines@) =~= had + seq![read]);
        }
    } else {
        proof {
            assert(texts(lines@) + Seq::<Seq<char>>::empty() =~= texts(lines@));
        }
    }
    lines
}

/// Cuts a line into its words.
pub fn split_words(l: &Vec<char>) -> (words: Vec<Vec<char>>)
    ensures
        texts(words@) == words_of(l@),
{
    let mut words: Vec<Vec<char>> = Vec::new();
    let mut cur: Vec<char> = Vec::new();
    let mut i: usize = 0;
    proof {
        assert(texts(words@) + words_from(l@, 0, cur@) =~= words_of(l@));
    }
    while i < l.len()
        invariant
            i <= l@.len(),
            words_of(l@) == texts(words@) + words_from(l@, i as int, cur@),
        decreases l@.len() - i,
    {
        let ghost had = texts(words@);
        let ghost read = cur@;
        let c = l[i];
        if is_whitespace(c) {
            let ghost rest = words_from(l@, i as int + 1, Seq::empty());
            if cur.len() > 0 {
                words.push(cur);
                cur = Vec::new();
                proof {
                    assert(texts(words@) =~= had + seq![read]);
                    assert(had + (seq![read] + rest) =~= (had + seq![read]) + rest);
                }
            } else {
                proof {
                    assert(read =~= Seq::<char>::empty());
                    assert(pending(read) =~= Seq::<Seq<char>>::empty());
                    assert(had + (pending(read) + rest) =~= had + rest);
                }
            }
        } else {
            cur.push(c);
        }
        i = i + 1;
    }
    if cur.len() > 0 {
        let ghost had = texts(words@);
        let ghost read = cur@;
        words.push(cur);
        proof {
            assert(texts(words@) =~= had + seq![read]);
        }
    } else {
        proof {
            assert(texts(words@) + Seq::<Seq<char>>::empty() =~= texts(words@));
        }
    }
    words
}

/// Cuts a word of the form `key=value` into its key and its value.
pub fn split_key_value(w: &Vec<char>) -> (r: Option<(Vec<char>, Vec<char>)>)
    ensures
        match r {
            Some((key, value)) => key_value(w@) == Some((key@, value@)),
            None => key_value(w@) is None,
        },
{
    let mut p: usize = 0;
    while p < w.len() && is_alphabetic(w[p])
        invariant
            p <= w@.len(),
            letters_end(w@, 0) == letters_end(w@, p as int),
        decreases w@.len() - p,
    {
        p = p + 1;
    }
    if p < w.len() && w[p] == '=' {
        Some((part(w, 0, p), part(w, p + 1, w.len())))
    } else {
        None
    }
}

/// The first digits of a number stand for no more than the number.
proof fn lemma_digits_prefix(d: Seq<char>, k: int)
    requires
        0 <= k <= d.len(),
    ensures
        digits(d) matches Some(n) ==> (digits(d.take(k)) matches Some(m) && m <= n),
    decreases d.len() - k,
{
    if k == d.len() {
        assert(d.take(k) =~= d);
    } else {
        lemma_digits_prefix(d.drop_last(), k);
        assert(d.drop_last().take(k) =~= d.take(k));
    }
}

/// Reads the digits of `s` from `from` on as a number of no more than
/// `max`.
fn parse_digits(s: &Vec<char>, from: usize, max: u64) -> (r: Option<u64>)
    requires
        from <= s@.len(),
    ensures
        r == match digits(s@.skip(from as int)) {
            Some(n) => if s@.len() > from && n <= max {
                Some(n as u64)
            } else {
                None::<u64>
            },
            None => None::<u64>,
        },
{
    if from >= s.len() {
        return None;
    }
    let ghost d = s@.skip(from as int);
    let mut acc: u128 = 0;
    let mut i: usize = from;
    proof {
        assert(d.take(0) =~= Seq::<char>::empty());
    }
    while i < s.len()
        invariant
            from <= i <= s@.len(),
            d == s@.skip(from as int),
            digits(d.take(i - from)) == Some(acc as nat),
            acc <= max,
        decreases s@.len() - i,
    {
        let c = s[i];
        proof {
            lemma_digits_prefix(d, i - from + 1);
            assert(d.take(i - from + 1).drop_last() =~= d.take(i - from));
            assert(d.take(i - from + 1).last() == c);
        }
        if !(c >= '0' && c <= '9') {
            return None;
        }
        let low = (c as u32 - '0' as u32) as u128;
        acc = acc * 10 + low;
        if acc > max as u128 {
            return None;
        }
        i = i + 1;
    }
    proof {
        assert(d.take(d.len() as int) =~= d);
    }
    Some(acc as u64)
}

/// Reads a number without a sign of no more than `max`.
fn parse_unsigned(s: &Vec<char>, max: u64) -> (r: Option<u64>)
    ensures
        r == match unsigned(s@, max as nat) {
            Some(n) => Some(n as u64),
            None => None::<u64>,
        },
{
    let from: usize = if s.len() > 0 && s[0] == '+' {
        1
    } else {
        0
    };
    proof {
        assert(s@.skip(0) =~= s@);
    }
    parse_digits(s, from, max)
}

/// Reads a number of 32 bits without a sign.
fn parse_u32(s: &Vec<char>) -> (r: Option<u32>)
    ensures
        r == as_u32(s@),
{
    match parse_unsigned(s, 0xffff_ffff) {
        Some(n) => Some(n as u32),
        None => None,
    }
}

/// Reads a number of the size of the machine.
fn parse_usize(s: &Vec<char>) -> (r: Option<usize>)
    ensures
        r == as_usize(s@),
{
    match parse_unsigned(s, usize::MAX as u64) {
        Some(n) => Some(n as usize),
        None => None,
    }
}

/// Reads a number of 32 bits with a sign.
fn parse_i32(s: &Vec<char>) -> (r: Option<i32>)
    ensures
        r == as_i32(s@),
{
    if s.len() > 0 && s[0] == '-' {
        match parse_digits(s, 1, 0x8000_0000) {
            Some(n) => Some((0 - n as i64) as i32),
            None => None,
        }
    } else {
        match parse_unsigned(s, 0x7fff_ffff) {
            Some(n) => Some(n as i32),
            None => None,
        }
    }
}

/// The measures of a face as far as they were read.
struct Measures {
    width: Option<usize>,
    height: Option<usize>,
    line_height: Option<u32>,
    base: Option<u32>,
}

/// The state of a font of which `m` and `glyphs` were read.
spec fn state(m: Measures, glyphs: Seq<FontGlyph>) -> FaceState {
    FaceState {
        width: m.width,
        height: m.height,
        line_height: m.line_height,
        base: m.base,
        glyphs,
    }
}

/// Reads the words of a `common` line.
fn read_common(words: &Vec<Vec<char>>, m: Measures, Ghost(glyphs): Ghost<Seq<FontGlyph>>) -> (r:
    Option<Measures>)
    ensures
        match r {
            Some(n) => common_from(texts(words@), 1, state(m, glyphs)) == Some(state(n, glyphs)),
            None => common_from(texts(words@), 1, state(m, glyphs)) is None,
        },
{
    let ghost all = texts(words@);
    let ghost begin = state(m, glyphs);
    let mut cur = m;
    let mut i: usize = 1;
    while i < words.len()
        invariant
            all == texts(words@),
            begin == state(m, glyphs),
            1 <= i,
            common_from(all, 1, begin) == common_from(all, i as int, state(cur, glyphs)),
        decreases words@.len() - i,
    {
        proof {
            assert(all[i as int] == words@[i as int]@);
        }
        let ghost here = state(cur, glyphs);
        let (key, value) = match split_key_value(&words[i]) {
            Some(pair) => pair,
            None => {
                assert(common_from(all, i as int, here) is None);
                return None;
            },
        };
        if is_word(&key, "lineHeight") {
            cur.line_height = parse_u32(&value);
        } else if is_word(&key, "base") {
            cur.base = parse_u32(&value);
        } else if is_word(&key, "scaleW") {
            cur.width = parse_usize(&value);
        } else if is_word(&key, "scaleH") {
            cur.height = parse_usize(&value);
        }
        proof {
            assert(state(cur, glyphs) == with_measure(here, key@, value@));
            assert(common_from(all, i as int, here) == common_from(
                all,
                i as int + 1,
                state(cur, glyphs),
            ));
        }
        i = i + 1;
    }
    Some(cur)
}

/// Whether the words of a `chars` line announce a number of glyphs.
fn has_count(words: &Vec<Vec<char>>) -> (r: bool)
    ensures
        r == count_from(texts(words@), 1),
{
    let ghost all = texts(words@);
    let mut i: usize = 1;
    while i < words.len()
        invariant
            all == texts(words@),
            1 <= i,
            count_from(all, 1) == count_from(all, i as int),
        decreases words@.len() - i,
    {
        proof {
            assert(all[i as int] == words@[i as int]@);
        }
        let (key, value) = match split_key_value(&words[i]) {
            Some(pair) => pair,
            None => { return false; },
        };
        if is_word(&key, "count") {
            return parse_usize(&value).is_some();
        }
        i = i + 1;
    }
    false
}

/// Reads the words of a `char` line.
fn read_glyph(words: &Vec<Vec<char>>) -> (r: Option<FontGlyph>)
    ensures
        r == match glyph_from(texts(words@), 1, no_glyph()) {
            Some(g) => glyph_of(g),
            None => None::<FontGlyph>,
        },
{
    let ghost all = texts(words@);
    let mut g = GlyphState {
        id: None,
        x: None,
        y: None,
        width: None,
        height: None,
        xoffset: None,
        yoffset: None,
    };
    let mut i: usize = 1;
    while i < words.len()
        invariant
            all == texts(words@),
            1 <= i,
            glyph_from(all, 1, no_glyph()) == glyph_from(all, i as int, g),
        decreases words@.len() - i,
    {
        proof {
            assert(all[i as int] == words@[i as int]@);
        }
        let (key, value) = match split_key_value(&words[i]) {
            Some(pair) => pair,
            None => { return None; },
        };
        if is_word(&key, "id") {
            match parse_u32(&value) {
                Some(v) => match char_of(v) {
                    Some(c) => {
                        g.id = Some(c);
                    },
                    None => { return None; },
                },
                None => {
                    g.id = None;
                },
            }
        } else if is_word(&key, "x") {
            g.x = parse_u32(&value);
        } else if is_word(&key, "y") {
            g.y = parse_u32(&value);
        } else if is_word(&key, "width") {
            g.width = parse_u32(&value);
        } else if is_word(&key, "height") {
            g.height = parse_u32(&value);
        } else if is_word(&key, "xoffset") {
            g.xoffset = parse_i32(&value);
        } else if is_word(&key, "yoffset") {
            g.yoffset = parse_i32(&value);
        }
        i = i + 1;
    }
    match g {
        GlyphState {
            id: Some(id),
            x: Some(x),
            y: Some(y),
            width: Some(width),
            height: Some(height),
            xoffset: Some(xoffset),
            yoffset: Some(yoffset),
        } => Some(
            FontGlyph {
                id,
                position: UVec2 { x, y },
                size: UVec2 { x: width, y: height },
                offset: IVec2 { x: xoffset, y: yoffset },
            },
        ),
        _ => None,
    }
}

/// Reads the description of a font from its bytes.
pub fn parse(bytes: &[u8]) -> (r: Option<FontFace>)
    ensures
        match r {
            Some(face) => font_of(bytes@) == Some(face@),
            None => font_of(bytes@) is None,
        },
{
    let text = match text_of(bytes) {
        Some(text) => text,
        None => { return None; },
    };
    let lines = split_lines(&text);
    let ghost all = texts(lines@);
    let mut m = Measures { width: None, height: None, line_height: None, base: None };
    let mut glyphs: Vec<FontGlyph> = Vec::new();
    let mut i: usize = 0;
    proof {
        assert(state(m, glyphs@) == no_face());
    }
    while i < lines.len()
        invariant
            all == texts(lines@),
            all == lines_of(text@),
            valid_utf8(bytes@),
            text@ == decode_utf8(bytes@),
            after_lines(all, 0, no_face()) == after_lines(all, i as int, state(m, glyphs@)),
        decreases lines@.len() - i,
    {
        proof {
            assert(all[i as int] == lines@[i as int]@);
        }
        let line = &lines[i];
        let ghost here = state(m, glyphs@);
        if has_prefix(line, "info") {
        } else if has_prefix(line, "common") {
            let words = split_words(line);
            m = match read_common(&words, m, Ghost(glyphs@)) {
                Some(next) => next,
                None => {
                    assert(after_line(here, all[i as int]) is None);
                    assert(after_lines(all, i as int, here) is None);
                    return None;
                },
            };
        } else if has_prefix(line, "chars") {
            let words = split_words(line);
            if !has_count(&words) {
                assert(after_line(here, all[i as int]) is None);
                assert(after_lines(all, i as int, here) is None);
                return None;
            }
        } else if has_prefix(line, "char") {
            let words = split_words(line);
            match read_glyph(&words) {
                Some(glyph) => {
                    glyphs.push(glyph);
                },
                None => {
                    assert(after_line(here, all[i as int]) is None);
                    assert(after_lines(all, i as int, here) is None);
                    return None;
                },
            }
        }
        proof {
            assert(after_line(here, all[i as int]) == Some(state(m, glyphs@)));
            assert(after_lines(all, i as int, here) == after_lines(
                all,
                i as int + 1,
                state(m, glyphs@),
            ));
        }
        i = i + 1;
    }
    match m {
        Measures {
            width: Some(width),
            height: Some(height),
            line_height: Some(line_height),
            base: Some(base),
        } => Some(FontFace { width, height, line_height, base, glyphs }),
        _ => None,
    }
}

} // verus!
