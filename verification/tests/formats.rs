use stl::ascii::{AsciiParser, Span};
use stl::binary::{encode, facet_from_words, BinaryParser};
use stl::quantize::quantize;
use stl::{Normal, Parsed, Point, StlError, StlFile, Triangle};

fn words_of(numbers: [f32; 12]) -> [u32; 12] {
    let mut words = [0u32; 12];
    for k in 0..12 {
        words[k] = numbers[k].to_bits();
    }
    words
}

fn binary_of(facets: &[[f32; 12]], announced: u32, tail: usize) -> Vec<u8> {
    let mut bytes = vec![7u8; 80];
    bytes.extend_from_slice(&announced.to_le_bytes());
    for (i, facet) in facets.iter().enumerate() {
        for x in facet {
            bytes.extend_from_slice(&x.to_le_bytes());
        }
        if i + 1 < facets.len() {
            bytes.extend_from_slice(&[0xaa, 0xbb]);
        }
    }
    bytes.extend(std::iter::repeat(0x55).take(tail));
    bytes
}

fn grid(x: f32) -> i64 {
    quantize(x.to_bits())
}

fn facet(numbers: [f32; 12]) -> Triangle {
    Triangle {
        normal: Normal { i: grid(numbers[0]), j: grid(numbers[1]), k: grid(numbers[2]) },
        v0: Point::new(grid(numbers[3]), grid(numbers[4]), grid(numbers[5])),
        v1: Point::new(grid(numbers[6]), grid(numbers[7]), grid(numbers[8])),
        v2: Point::new(grid(numbers[9]), grid(numbers[10]), grid(numbers[11])),
    }
}

const FIRST: [f32; 12] = [0.0, 0.0, 1.0, 0.0, 0.0, 0.0, 1.0, 0.0, 0.0, 0.0, 1.0, 0.0];
const SECOND: [f32; 12] = [0.0, -1.0, 0.0, 1.5, 2.25, -3.0, 0.001, 5.0, 6.0, 7.0, 8.0, 9.5];

fn is_parse_error<T>(r: Result<T, StlError>) -> bool {
    matches!(r, Err(StlError::ParseError(())))
}

#[test]
fn binary_mesh_is_read() {
    let bytes = binary_of(&[FIRST, SECOND], 2, 2);
    let mesh = StlFile::parse_binary(&bytes).unwrap();
    assert_eq!(mesh.triangles(), vec![facet(FIRST), facet(SECOND)]);
    assert_eq!(mesh.triangles()[0].v1, Point::new(1_048_576, 0, 0));
    assert_eq!(mesh.triangles()[1].v0, Point::new(1_572_864, 2_359_296, -3_145_728));
    assert_eq!(mesh.facet_count(), 2);
    assert_eq!(mesh.vertex_count(), 6);
}

#[test]
fn binary_mesh_without_facets_is_read() {
    let bytes = binary_of(&[], 0, 0);
    assert_eq!(bytes.len(), 84);
    let mesh = StlFile::parse_binary(&bytes).unwrap();
    assert_eq!(mesh.triangles(), vec![]);
}

#[test]
fn the_two_bytes_after_the_last_facet_may_be_missing() {
    let bytes = binary_of(&[FIRST, SECOND], 2, 0);
    assert_eq!(bytes.len(), 84 + 100 - 2);
    let mesh = StlFile::parse_binary(&bytes).unwrap();
    assert_eq!(mesh.triangles(), vec![facet(FIRST), facet(SECOND)]);
}

#[test]
fn what_follows_the_announced_facets_is_not_read() {
    let bytes = binary_of(&[FIRST, SECOND], 1, 40);
    let mesh = StlFile::parse_binary(&bytes).unwrap();
    assert_eq!(mesh.triangles(), vec![facet(FIRST)]);
}

#[test]
fn binary_bytes_that_are_too_short_are_refused() {
    assert!(is_parse_error(StlFile::parse_binary(&[])));
    assert!(is_parse_error(StlFile::parse_binary(&[0u8; 79])));
    assert!(is_parse_error(StlFile::parse_binary(&[0u8; 83])));
    assert!(StlFile::parse_binary(&[0u8; 84]).is_ok());
    let mut bytes = binary_of(&[FIRST, SECOND], 2, 0);
    bytes.pop();
    assert!(is_parse_error(StlFile::parse_binary(&bytes)));
    let announced_more = binary_of(&[FIRST, SECOND], 3, 2);
    assert!(is_parse_error(StlFile::parse_binary(&announced_more)));
    let far_more = binary_of(&[FIRST], u32::MAX, 2);
    assert!(is_parse_error(StlFile::parse_binary(&far_more)));
    assert!(BinaryParser::new(&[0u8; 83]).is_err());
    assert!(BinaryParser::new(&[0u8; 84]).is_ok());
}

#[test]
fn binary_form_is_written_and_read_back() {
    let facets = vec![words_of(FIRST), words_of(SECOND)];
    let bytes = encode(&facets);
    assert_eq!(bytes.len(), 84 + 2 * 50);
    assert!(bytes[..80].iter().all(|&b| b == 0));
    assert_eq!(&bytes[80..84], &[2, 0, 0, 0]);
    assert_eq!(&bytes[84 + 8..84 + 12], &1.0f32.to_le_bytes());
    assert_eq!(&bytes[84 + 48..84 + 50], &[0, 0]);
    assert_eq!(&bytes[84 + 50 + 44..84 + 50 + 48], &9.5f32.to_le_bytes());
    let mesh = StlFile::parse_binary(&bytes).unwrap();
    assert_eq!(mesh.triangles(), vec![facet(FIRST), facet(SECOND)]);
    assert_eq!(encode(&Vec::new()).len(), 84);
}

#[test]
fn a_mesh_is_written_in_binary_form_and_read_back() {
    let bytes = binary_of(&[FIRST, SECOND], 2, 2);
    let mesh = StlFile::parse_binary(&bytes).unwrap();
    let mut out = vec![1u8, 2, 3];
    assert!(mesh.write_binary(&mut out).is_ok());
    assert_eq!(&out[..3], &[1, 2, 3]);
    let written = &out[3..];
    assert_eq!(written.len(), 84 + 2 * 50);
    assert!(written[..80].iter().all(|&b| b == 0));
    assert_eq!(&written[80..84], &[2, 0, 0, 0]);
    // 1.0 is on the lattice and is written as it was
    assert_eq!(&written[84 + 8..84 + 12], &1.0f32.to_le_bytes());
    assert_eq!(&written[84 + 50 + 12..84 + 50 + 16], &1.5f32.to_le_bytes());
    // 0.001 is not: the nearest lattice point, 1049 steps, is written
    assert_eq!(&written[84 + 50 + 24..84 + 50 + 28], &(1049.0f32 / 1_048_576.0).to_le_bytes());
    let again = StlFile::parse_binary(written).unwrap();
    assert_eq!(again, mesh);
    let mut empty = Vec::new();
    assert!(StlFile::new().write_binary(&mut empty).is_ok());
    assert_eq!(empty.len(), 84);
    assert!(StlFile::parse_binary(&empty).unwrap().triangles().is_empty());
}

#[test]
fn facets_are_made_of_twelve_words() {
    assert_eq!(facet_from_words(&words_of(SECOND)), facet(SECOND));
    let mut words = Vec::new();
    words.extend_from_slice(&words_of(FIRST));
    words.extend_from_slice(&words_of(SECOND));
    let mesh = StlFile::from_words(&words).unwrap();
    assert_eq!(mesh.triangles(), vec![facet(FIRST), facet(SECOND)]);
    assert_eq!(StlFile::from_words(&[]).unwrap().triangles(), vec![]);
    assert!(is_parse_error(StlFile::from_words(&words[..23])));
    assert!(is_parse_error(StlFile::from_words(&words[..1])));
}

const TEXT: &str = "solid  cube\n  facet normal 0 0 1\n    outer loop\n      vertex 0 0 0\n      vertex 1.5 0 0\n      vertex 0 -2e1 0\n    endloop\n  endfacet\n\tfacet normal 1 0 0 outer loop vertex 1 2 3 vertex 4 5 6 vertex 7 8 9 endloop endfacet\nendsolid cube\n";

fn texts<'a>(text: &'a str, spans: &[Span]) -> Vec<&'a str> {
    spans.iter().map(|s| &text[s.start..s.end]).collect()
}

#[test]
fn text_mesh_is_laid_out() {
    let layout = StlFile::parse_ascii(TEXT.as_bytes()).unwrap();
    assert_eq!(&TEXT[layout.name.start..layout.name.end], "cube");
    assert_eq!(
        texts(TEXT, &layout.numbers),
        vec![
            "0", "0", "1", "0", "0", "0", "1.5", "0", "0", "0", "-2e1", "0", "1", "0", "0", "1",
            "2", "3", "4", "5", "6", "7", "8", "9",
        ]
    );
}

#[test]
fn text_mesh_without_facets_is_laid_out() {
    let text = "solid nothing\nendsolid nothing\n";
    let layout = StlFile::parse_ascii(text.as_bytes()).unwrap();
    assert_eq!(layout.name, Span { start: 6, end: 13 });
    assert!(layout.numbers.is_empty());
    // nothing need follow the last word
    assert!(StlFile::parse_ascii("solid a endsolid".as_bytes()).is_ok());
    // white space may come first
    assert!(StlFile::parse_ascii(" \t\r\n solid a endsolid".as_bytes()).is_ok());
}

#[test]
fn text_that_is_no_mesh_is_refused() {
    let refused = |text: &str| is_parse_error(StlFile::parse_ascii(text.as_bytes()));
    assert!(refused(""));
    assert!(refused("   "));
    assert!(refused("solid"));
    assert!(refused("solid "));
    assert!(refused("solid name"));
    assert!(refused("solid name\n"));
    assert!(refused("solidname\nendsolid"));
    assert!(refused("solid name\nendsoli"));
    assert!(refused("solid name facet endsolid"));
    assert!(refused(&TEXT.replace("endloop", "endlop")));
    assert!(refused(&TEXT.replace("outer", "inner")));
    assert!(refused(&TEXT.replace("vertex 7 8 9", "vertex 7 8")));
    assert!(refused(&TEXT.replace("normal 0 0 1", "normal 0 0")));
    assert!(refused(&TEXT.replace("endsolid cube\n", "")));
    assert!(refused(&TEXT[..TEXT.len() - 20]));
    assert!(AsciiParser::new("solid x".as_bytes()).is_ok());
    assert!(AsciiParser::new("solidx".as_bytes()).is_err());
    assert!(AsciiParser::new("facet".as_bytes()).is_err());
}

#[test]
fn a_mesh_without_a_name_takes_the_next_word_for_one() {
    let text = "solid \nfacet normal 0 0 1 outer loop vertex 0 0 0 vertex 1 0 0 vertex 0 1 0 endloop endfacet endsolid";
    assert!(is_parse_error(StlFile::parse_ascii(text.as_bytes())));
}

#[test]
fn the_form_is_told_by_the_first_word() {
    let padded = format!(" \n\t{}", TEXT);
    match StlFile::parse(padded.as_bytes()).unwrap() {
        Parsed::Ascii { start, layout } => {
            assert_eq!(start, 3);
            assert_eq!(layout.numbers.len(), 24);
            let rest = &padded[start..];
            assert_eq!(&rest[layout.name.start..layout.name.end], "cube");
            assert_eq!(&rest[layout.numbers[6].start..layout.numbers[6].end], "1.5");
        },
        Parsed::Binary(_) => panic!("taken for binary"),
    }
    let bytes = binary_of(&[FIRST, SECOND], 2, 2);
    match StlFile::parse(&bytes).unwrap() {
        Parsed::Binary(mesh) => assert_eq!(mesh.triangles(), vec![facet(FIRST), facet(SECOND)]),
        Parsed::Ascii { .. } => panic!("taken for text"),
    }
}

#[test]
fn white_space_before_binary_bytes_is_passed_over() {
    let mut bytes = vec![b' ', b'\n'];
    bytes.extend_from_slice(&binary_of(&[FIRST], 1, 0));
    match StlFile::parse(&bytes).unwrap() {
        Parsed::Binary(mesh) => assert_eq!(mesh.triangles(), vec![facet(FIRST)]),
        Parsed::Ascii { .. } => panic!("taken for text"),
    }
    // a header of spaces is passed over too, and then too little is left
    let mut spaces = vec![b' '; 80];
    spaces.extend_from_slice(&[0, 0, 0, 0]);
    assert!(is_parse_error(StlFile::parse(&spaces)));
}

#[test]
fn bytes_of_neither_form_are_refused() {
    assert!(is_parse_error(StlFile::parse(&[])));
    assert!(is_parse_error(StlFile::parse("solid".as_bytes())));
    assert!(is_parse_error(StlFile::parse("solid x".as_bytes())));
    assert!(is_parse_error(StlFile::parse("soli".as_bytes())));
    assert!(is_parse_error(StlFile::parse(&[1u8; 83])));
}

#[test]
fn errors_are_made_from_their_causes() {
    assert!(matches!(StlError::from(()), StlError::ParseError(())));
    let cause = std::io::Error::new(std::io::ErrorKind::NotFound, "gone");
    match StlError::from(cause) {
        StlError::IoError(e) => assert_eq!(e.kind(), std::io::ErrorKind::NotFound),
        StlError::ParseError(()) => panic!("taken for a parse error"),
    }
}
