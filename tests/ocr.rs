use lg_desktop::ocr::{extract_text, parse_confidence, parse_row, Geometry};

const HEADER: &str = "level\tpage_num\tblock_num\tpar_num\tline_num\tword_num\tleft\ttop\twidth\theight\tconf\ttext\n";

fn row(line: u32, left: i32, top: i32, w: u32, h: u32, conf: &str, text: &str) -> String {
    format!("5\t1\t1\t1\t{line}\t1\t{left}\t{top}\t{w}\t{h}\t{conf}\t{text}\n")
}

fn chars(s: &str) -> Vec<char> {
    s.chars().collect()
}

#[test]
fn coordinates_move_to_desktop_frame() {
    let g = Geometry { x: 100, y: 50, w: 400, h: 300 };
    let line = row(0, 10, 5, 20, 8, "90", "Hi");
    let (_, e) = parse_row(&chars(line.trim_end()), &g).unwrap();
    assert_eq!((e.x, e.y, e.w, e.h), (110, 55, 20, 8));
    assert_eq!(e.text, "Hi");
    assert_eq!(e.confidence, 9000);
}

#[test]
fn confidence_threshold_is_forty() {
    let g = Geometry { x: 0, y: 0, w: 10, h: 10 };
    let low = row(0, 1, 1, 1, 1, "39.9", "noise");
    let edge = row(0, 1, 1, 1, 1, "40.0", "kept");
    assert!(parse_row(&chars(&low), &g).is_none());
    let (_, e) = parse_row(&chars(&edge), &g).unwrap();
    assert_eq!(e.text, "kept");
    assert_eq!(e.confidence, 4000);
}

#[test]
fn lines_are_rebuilt_from_words() {
    let g = Geometry { x: 0, y: 0, w: 10, h: 10 };
    let tsv = format!(
        "{HEADER}{}{}{}",
        row(0, 1, 1, 1, 1, "90", "Hello"),
        row(0, 1, 1, 1, 1, "92", "World"),
        row(1, 1, 1, 1, 1, "95", "Bye")
    );
    let (text, elements) = extract_text(&tsv, &g);
    assert_eq!(text, "Hello World\nBye");
    let words: Vec<&str> = elements.iter().map(|e| e.text.as_str()).collect();
    assert_eq!(words, vec!["Hello", "World", "Bye"]);
}

#[test]
fn non_word_rows_and_blank_words_are_dropped() {
    let g = Geometry { x: -5, y: 7, w: 10, h: 10 };
    let tsv = format!(
        "{HEADER}4\t1\t1\t1\t0\t0\t0\t0\t100\t20\t-1\t\n{}{}{}short\trow\n",
        row(0, 1, 2, 3, 4, "95", "   "),
        row(2, 1, 2, 3, 4, "96.5", " ok\r"),
        row(2, 1, 2, 3, 4, "abc", "bad")
    );
    let (text, elements) = extract_text(&tsv, &g);
    assert_eq!(text, "ok");
    assert_eq!(elements.len(), 1);
    assert_eq!((elements[0].x, elements[0].y), (-4, 9));
    assert_eq!(elements[0].confidence, 9650);
}

#[test]
fn empty_recognition_output() {
    let g = Geometry { x: 0, y: 0, w: 0, h: 0 };
    let (text, elements) = extract_text("", &g);
    assert_eq!(text, "");
    assert!(elements.is_empty());
    let (text, elements) = extract_text(HEADER, &g);
    assert_eq!(text, "");
    assert!(elements.is_empty());
}

#[test]
fn confidence_parsing() {
    assert_eq!(parse_confidence(&chars("96.063446")), Some(9606));
    assert_eq!(parse_confidence(&chars("95")), Some(9500));
    assert_eq!(parse_confidence(&chars(".5")), Some(50));
    assert_eq!(parse_confidence(&chars("+7.")), Some(700));
    assert_eq!(parse_confidence(&chars("-1")), None);
    assert_eq!(parse_confidence(&chars("")), None);
    assert_eq!(parse_confidence(&chars(".")), None);
    assert_eq!(parse_confidence(&chars("1.2.3")), None);
}
