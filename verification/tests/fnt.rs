use glam::{IVec2, UVec2};
use voxel_tensor::format::fnt::{parse, split_key_value, split_lines, split_words};

fn chars(s: &str) -> Vec<char> {
    s.chars().collect()
}

fn text(v: &[char]) -> String {
    v.iter().collect()
}

const COMMON: &str = "common lineHeight=32 base=26 scaleW=256 scaleH=128 pages=1 packed=0\n";

#[test]
fn a_description_of_a_font() {
    let source = "info face=\"Sans Serif\" size=32 bold=0\n\
        common lineHeight=32 base=26 scaleW=256 scaleH=128 pages=1 packed=0\n\
        page id=0 file=\"sans-serif.png\"\n\
        chars count=2\n\
        char id=65 x=10 y=20 width=18 height=22 xoffset=-1 yoffset=+4 xadvance=17 page=0 chnl=15\n\
        char id=8364   x=0 y=0 width=1 height=2 xoffset=3 yoffset=-4\n\
        kernings count=0\n";
    let face = parse(source.as_bytes()).unwrap();
    assert_eq!(face.width, 256);
    assert_eq!(face.height, 128);
    assert_eq!(face.line_height, 32);
    assert_eq!(face.base, 26);
    assert_eq!(face.glyphs.len(), 2);
    assert_eq!(face.glyphs[0].id, 'A');
    assert_eq!(face.glyphs[0].position, UVec2::new(10, 20));
    assert_eq!(face.glyphs[0].size, UVec2::new(18, 22));
    assert_eq!(face.glyphs[0].offset, IVec2::new(-1, 4));
    assert_eq!(face.glyphs[1].id, '\u{20ac}');
    assert_eq!(face.glyphs[1].offset, IVec2::new(3, -4));
}

#[test]
fn lines_may_end_with_a_carriage_return() {
    let source = "common lineHeight=1 base=2 scaleW=3 scaleH=4\r\nchar id=48 x=1 y=2 width=3 height=4 xoffset=5 yoffset=6\r\n";
    let face = parse(source.as_bytes()).unwrap();
    assert_eq!((face.width, face.height, face.line_height, face.base), (3, 4, 1, 2));
    assert_eq!(face.glyphs[0].id, '0');
    assert_eq!(face.glyphs[0].offset, IVec2::new(5, 6));
    let bare = "common lineHeight=1 base=2 scaleW=3 scaleH=4\r";
    assert_eq!(parse(bare.as_bytes()).map(|f| f.height), Some(4));
    let last = "common lineHeight=1 base=2 scaleW=3 scaleH=4";
    assert!(parse(last.as_bytes()).is_some());
}

#[test]
fn measures_have_to_be_given() {
    assert!(parse(b"").is_none());
    assert!(parse(b"\n\n").is_none());
    assert!(parse(b"common lineHeight=1 base=2 scaleW=3\n").is_none());
    assert!(parse(b"common lineHeight=1 base=2 scaleW=3\ncommon scaleH=4\n").is_some());
    assert!(parse(b"common lineHeight=1 base=2 scaleW=3 scaleH=4 scaleH=x\n").is_none());
    assert!(parse(b"common lineHeight=1 base=2 scaleW=3 scaleH=x scaleH=4\n").is_some());
    assert!(parse(b" common lineHeight=1 base=2 scaleW=3 scaleH=4\n").is_none());
    assert!(parse(b"commonlineHeight=1 lineHeight=1 base=2 scaleW=3 scaleH=4\n").is_some());
}

#[test]
fn words_have_to_be_keys_and_values() {
    let ok = |tail: &str| parse(format!("{COMMON}{tail}").as_bytes()).is_some();
    assert!(ok(""));
    assert!(ok("common other\n") == false);
    assert!(ok("common =5\n"));
    assert!(ok("common a1=5\n") == false);
    assert!(ok("common \u{43a}\u{43b}\u{44e}\u{447}=1\n"));
    assert!(ok("common base\u{2260}=1\n") == false);
    assert!(ok("common\u{a0}base=7\n"));
    assert!(ok("info anything at all\n"));
    assert!(ok("information without sense\n"));
    assert!(ok("page nonsense\n"));
}

#[test]
fn the_number_of_glyphs_has_to_be_announced() {
    let ok = |tail: &str| parse(format!("{COMMON}{tail}").as_bytes()).is_some();
    assert!(ok("chars count=95\n"));
    assert!(ok("chars a=1 count=2 nonsense\n"));
    assert!(!ok("chars\n"));
    assert!(!ok("chars a=1\n"));
    assert!(!ok("chars nonsense count=2\n"));
    assert!(!ok("chars count=many\n"));
    assert!(!ok("chars count=many count=2\n"));
    assert!(!ok("charset=utf8\n"));
}

#[test]
fn glyphs_have_to_be_whole() {
    let ok = |tail: &str| parse(format!("{COMMON}{tail}").as_bytes()).is_some();
    assert!(ok("char id=65 x=1 y=2 width=3 height=4 xoffset=5 yoffset=6\n"));
    assert!(ok("char yoffset=6 xoffset=5 height=4 width=3 y=2 x=1 id=65\n"));
    assert!(!ok("char id=65 x=1 y=2 width=3 height=4 xoffset=5\n"));
    assert!(!ok("char x=1 y=2 width=3 height=4 xoffset=5 yoffset=6\n"));
    assert!(!ok("char id=65 x=1 x=? y=2 width=3 height=4 xoffset=5 yoffset=6\n"));
    assert!(ok("char id=65 x=? x=1 y=2 width=3 height=4 xoffset=5 yoffset=6\n"));
    assert!(!ok("char id=65 x=-1 y=2 width=3 height=4 xoffset=5 yoffset=6\n"));
    assert!(!ok("char id=55296 x=1 y=2 width=3 height=4 xoffset=5 yoffset=6\n"));
    assert!(!ok("char id=55296 id=65 x=1 y=2 width=3 height=4 xoffset=5 yoffset=6\n"));
    assert!(!ok("char id=1114112 x=1 y=2 width=3 height=4 xoffset=5 yoffset=6\n"));
    assert!(ok("char id=1114111 x=1 y=2 width=3 height=4 xoffset=5 yoffset=6\n"));
    assert!(ok("char id=x id=65 x=1 y=2 width=3 height=4 xoffset=5 yoffset=6\n"));
    assert!(!ok("char id=65 id=x x=1 y=2 width=3 height=4 xoffset=5 yoffset=6\n"));
    assert!(!ok("char id=65 x=1 y=2 width=3 height=4 xoffset=5 yoffset=6 page\n"));
}

#[test]
fn bytes_have_to_be_text() {
    let mut bytes = COMMON.as_bytes().to_vec();
    assert!(parse(&bytes).is_some());
    bytes.extend_from_slice(&[b'i', b'n', b'f', b'o', 0xff, b'\n']);
    assert!(parse(&bytes).is_none());
    assert!(parse(&[0xc3]).is_none());
}

#[test]
fn numbers_are_read_as_the_standard_library_reads_them() {
    let samples = [
        "0", "7", "007", "+5", "-5", "+", "-", "", "5a", "a5", "1_000", "4294967295",
        "4294967296", "2147483647", "2147483648", "-2147483648", "-2147483649", "-0", "+0",
        "++1", "-+1", "18446744073709551615", "18446744073709551616",
        "99999999999999999999999999999999999999999", "\u{661}", "1.5",
    ];
    for s in samples {
        let unsigned = format!("common lineHeight={s} base=2 scaleW=3 scaleH=4\n");
        assert_eq!(
            parse(unsigned.as_bytes()).map(|f| f.line_height),
            s.parse::<u32>().ok(),
            "{s:?} as u32"
        );
        let size = format!("common lineHeight=1 base=2 scaleW={s} scaleH=4\n");
        assert_eq!(
            parse(size.as_bytes()).map(|f| f.width),
            s.parse::<usize>().ok(),
            "{s:?} as usize"
        );
        let signed =
            format!("{COMMON}char id=65 x=1 y=2 width=3 height=4 xoffset={s} yoffset=6\n");
        assert_eq!(
            parse(signed.as_bytes()).map(|f| f.glyphs[0].offset.x),
            s.parse::<i32>().ok(),
            "{s:?} as i32"
        );
    }
}

#[test]
fn texts_are_cut_as_the_standard_library_cuts_them() {
    let samples = [
        "",
        "\n",
        "a",
        "a\n",
        "a\r\n",
        "a\r",
        "\r\n\r\n",
        "a\n\nb",
        "a\r\r\nb\n\r",
        "one two\tthree\u{a0}four\u{3000}five  six \n seven\x0b\x0ceight\u{2028}nine\u{85}",
        " lead and trail ",
    ];
    for s in samples {
        let lines: Vec<String> = split_lines(&chars(s)).iter().map(|l| text(l)).collect();
        let expected: Vec<String> = s.lines().map(str::to_string).collect();
        assert_eq!(lines, expected, "lines of {s:?}");
        let words: Vec<String> = split_words(&chars(s)).iter().map(|w| text(w)).collect();
        let expected: Vec<String> = s.split_whitespace().map(str::to_string).collect();
        assert_eq!(words, expected, "words of {s:?}");
    }
}

#[test]
fn keys_and_values() {
    let cut = |s: &str| split_key_value(&chars(s)).map(|(k, v)| (text(&k), text(&v)));
    assert_eq!(cut("id=65"), Some(("id".to_string(), "65".to_string())));
    assert_eq!(cut("face=\"a=b\""), Some(("face".to_string(), "\"a=b\"".to_string())));
    assert_eq!(cut("=x"), Some(("".to_string(), "x".to_string())));
    assert_eq!(cut("x="), Some(("x".to_string(), "".to_string())));
    assert_eq!(cut("\u{e9}t\u{e9}=1"), Some(("\u{e9}t\u{e9}".to_string(), "1".to_string())));
    assert_eq!(cut("x"), None);
    assert_eq!(cut(""), None);
    assert_eq!(cut("x1=2"), None);
    assert_eq!(cut("x-y=2"), None);
}
