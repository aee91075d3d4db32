use minesweeper::base::board::CellContent;
use minesweeper::base::encode_decode::base32hex;
use minesweeper::base::encode_decode::text;
use minesweeper::base::encode_decode::{ascii, base64, llama_url, ptt_url, EncodeType};
use minesweeper::base::vec2d::Vec2D;

fn corner_mine(width: usize, height: usize) -> Vec2D<CellContent> {
    let mut cells = Vec2D::filled(width, height, CellContent::Empty);
    cells.set(0, 0, CellContent::Mine);
    minesweeper::base::build_numbers(&mut cells, 1);
    cells
}

#[test]
fn encode_types_are_listed() {
    assert_eq!(EncodeType::ENCODE_TYPES.len(), 5);
    assert_eq!(EncodeType::DECODE_TYPES.len(), 4);
    assert!(!EncodeType::DECODE_TYPES.contains(&EncodeType::AsciiWithNumbers));
    assert_eq!(EncodeType::Ascii.label(), "ASCII");
    assert_eq!(EncodeType::AsciiWithNumbers.label(), "ASCII (with Numbers)");
    assert_eq!(EncodeType::Base64.label(), "Base64");
    assert_eq!(EncodeType::PttUrl.label(), "PTT URL");
    assert_eq!(EncodeType::LlamaUrl.label(), "Llama URL");
}

#[test]
fn decimal_text() {
    assert_eq!(text::decimal(0), vec!['0']);
    assert_eq!(text::decimal(1205), vec!['1', '2', '0', '5']);
    let digits: Vec<char> = "0030".chars().collect();
    assert_eq!(text::parse_decimal(&digits, 0, 4), Some(30));
    assert_eq!(text::parse_decimal(&digits, 2, 3), Some(3));
    assert_eq!(text::parse_decimal(&digits, 2, 2), None);
    let letters: Vec<char> = "12a".chars().collect();
    assert_eq!(text::parse_decimal(&letters, 0, 3), None);
    assert_eq!(text::parse_decimal(&letters, 0, 2), Some(12));
    let huge: Vec<char> = "99999999999999999999999".chars().collect();
    assert_eq!(text::parse_decimal(&huge, 0, huge.len()), None);
    assert_eq!(text::chars_of("a@\n"), vec!['a', '@', '\n']);
    assert_eq!(text::text_of(&vec!['o', 'k']), "ok");
    assert_eq!(text::digit(7), '7');
    assert_eq!(text::value_of('7'), Some(7));
    assert_eq!(text::value_of('x'), None);
}

#[test]
fn ascii_reads_a_board() {
    let pack = ascii::decode("X.\n.@").unwrap();
    assert_eq!(pack.cell_contents.dims(), (2, 2));
    assert_eq!(pack.mines, 1);
    assert_eq!(pack.start_position, Some((1, 1)));
    assert_eq!(
        pack.cell_contents.data(),
        &vec![
            CellContent::Mine,
            CellContent::Number(1),
            CellContent::Number(1),
            CellContent::Number(1),
        ]
    );
    // other ways to write the same cells, with line endings of either kind
    let pack = ascii::decode("*1\r\n x\r\n").unwrap();
    assert_eq!(pack.mines, 2);
    assert_eq!(pack.start_position, None);
    assert_eq!(pack.cell_contents.get(1, 1), Some(&CellContent::Mine));
    assert_eq!(pack.cell_contents.get(0, 1), Some(&CellContent::Number(2)));
}

#[test]
fn ascii_refuses_what_is_no_board() {
    assert!(ascii::decode("").is_none());
    assert!(ascii::decode("\n..").is_none());
    assert!(ascii::decode("..\n.").is_none());
    assert!(ascii::decode(".9").is_none());
    assert!(ascii::decode(".0").is_none());
    assert!(ascii::decode(".?").is_none());
    assert_eq!(ascii::split_lines(&"a\r\n\nb\r".chars().collect()), vec![
        vec!['a'],
        vec![],
        vec!['b', '\r'],
    ]);
}

#[test]
fn ascii_writes_a_board() {
    let cells = corner_mine(2, 2);
    assert_eq!(ascii::encode(&cells, None), "X.\n..");
    assert_eq!(ascii::encode(&cells, Some((1, 1))), "X.\n.@");
    assert_eq!(ascii::encode_with_numbers(&cells, None), "X1\n11");
    assert_eq!(ascii::encode_with_numbers(&cells, Some((0, 0))), "@1\n11");
    let back = ascii::decode(&ascii::encode(&cells, Some((1, 0)))).unwrap();
    assert_eq!(back.cell_contents.data(), cells.data());
    assert_eq!(back.start_position, Some((1, 0)));
}

#[test]
fn base64_writes_a_board() {
    let cells = corner_mine(2, 2);
    assert_eq!(base64::frame(&cells, None), vec![0, 2, 2, 1]);
    assert_eq!(base64::frame(&cells, Some((1, 1))), vec![8, 2, 2, 1, 1, 1]);
    assert_eq!(base64::encode(&cells, None), "AAICAQ");
    assert_eq!(base64::encode(&cells, Some((1, 1))), "CAICAQEB");
    let wide = Vec2D::filled(300, 1, CellContent::Empty);
    let bytes = base64::frame(&wide, None);
    assert_eq!(&bytes[..5], &[1, 44, 1, 1, 0]);
    assert_eq!(bytes.len(), 5 + 38);
}

#[test]
fn base64_reads_a_board() {
    let pack = base64::decode("CAICAQEB").unwrap();
    assert_eq!(pack.cell_contents.dims(), (2, 2));
    assert_eq!(pack.mines, 1);
    assert_eq!(pack.start_position, Some((1, 1)));
    assert_eq!(pack.cell_contents.data(), corner_mine(2, 2).data());
    let pack = base64::decode("AAICAQ").unwrap();
    assert_eq!(pack.start_position, None);
    assert!(base64::decode("!!!").is_none());
    assert!(base64::decode("").is_none());
    assert!(base64::unframe(&vec![]).is_none());
    assert!(base64::unframe(&vec![0, 2, 2]).is_none());
    assert!(base64::unframe(&vec![0, 0, 2, 1]).is_none());
    assert!(base64::unframe(&vec![1, 2, 0, 2]).is_none());
    let pack = base64::unframe(&vec![1, 2, 0, 1, 0, 3]).unwrap();
    assert_eq!(pack.cell_contents.dims(), (2, 1));
    assert_eq!(pack.mines, 2);
    // bits past the last cell do not count
    let pack = base64::unframe(&vec![0, 1, 1, 255]).unwrap();
    assert_eq!(pack.mines, 1);
}

#[test]
fn base32hex_symbols() {
    assert_eq!(base32hex::to_symbol(0), '0');
    assert_eq!(base32hex::to_symbol(9), '9');
    assert_eq!(base32hex::to_symbol(10), 'a');
    assert_eq!(base32hex::to_symbol(31), 'v');
    assert_eq!(base32hex::from_symbol('v'), Some(31));
    assert_eq!(base32hex::from_symbol('V'), Some(31));
    assert_eq!(base32hex::from_symbol('g'), Some(16));
    assert_eq!(base32hex::from_symbol('w'), None);
    assert_eq!(base32hex::from_symbol('-'), None);
}

#[test]
fn base32hex_reads_and_writes() {
    let cells = corner_mine(9, 9);
    let (board, mines) = base32hex::encode(&cells);
    assert_eq!(board, "1");
    assert_eq!(mines, "g0000000000000000");
    assert_eq!(base32hex::encode(&corner_mine(16, 16)).0, "2");
    assert_eq!(base32hex::encode(&corner_mine(30, 16)).0, "3");
    assert_eq!(base32hex::encode(&corner_mine(3, 2)).0, "32");
    assert_eq!(base32hex::encode(&corner_mine(12, 5)).0, "1205");
    assert_eq!(base32hex::encode(&corner_mine(5, 12)).0, "512");
    assert_eq!(base32hex::encode(&corner_mine(3, 2)).1, "g0");
    let pack = base32hex::decode(3, 2, "G0").unwrap();
    assert_eq!(pack.cell_contents.data(), corner_mine(3, 2).data());
    assert_eq!(pack.mines, 1);
    let pack = base32hex::decode(3, 2, "vvvv").unwrap();
    assert_eq!(pack.mines, 6);
    let pack = base32hex::decode(3, 2, "").unwrap();
    assert_eq!(pack.mines, 0);
    assert!(base32hex::decode(3, 2, "w").is_none());
    assert!(base32hex::decode(0, 2, "0").is_none());
}

fn pair(name: &str, value: &str) -> (String, String) {
    (name.to_string(), value.to_string())
}

#[test]
fn query_gives_the_board() {
    let pack = base32hex::decode_query(&vec![pair("b", "1"), pair("m", "g")]).unwrap();
    assert_eq!(pack.cell_contents.dims(), (9, 9));
    assert_eq!(pack.mines, 1);
    let pack = base32hex::decode_query(&vec![pair("m", "0"), pair("b", "1205")]).unwrap();
    assert_eq!(pack.cell_contents.dims(), (12, 5));
    let pack = base32hex::decode_query(&vec![pair("b", "1"), pair("m", "0"), pair("b", "3")]).unwrap();
    assert_eq!(pack.cell_contents.dims(), (30, 16));
    let pack = base32hex::decode_query(&vec![pair("b", ""), pair("m", "0")]).unwrap();
    assert_eq!(pack.cell_contents.dims(), (8, 8));
    let pack = base32hex::decode_query(&vec![pair("b", "7"), pair("m", "0")]).unwrap();
    assert_eq!(pack.cell_contents.dims(), (8, 7));
    assert!(base32hex::decode_query(&vec![pair("b", "1")]).is_none());
    assert!(base32hex::decode_query(&vec![pair("m", "0")]).is_none());
    assert!(base32hex::decode_query(&vec![pair("b", "1x"), pair("m", "0")]).is_none());
    assert!(base32hex::decode_query(&vec![pair("b", "1"), pair("m", "~")]).is_none());
    assert!(base32hex::decode_query(&vec![pair("bb", "1"), pair("m", "0")]).is_none());
}

#[test]
fn ptt_links() {
    let cells = corner_mine(9, 9);
    let link = ptt_url::encode(&cells);
    assert_eq!(
        link,
        "https://pttacgfans.github.io/Minesweeper-ZiNi-Calculator/?b=1&m=g0000000000000000"
    );
    let pack = ptt_url::decode(&link).unwrap();
    assert_eq!(pack.cell_contents.data(), cells.data());
    assert_eq!(pack.mines, 1);
    assert_eq!(pack.start_position, None);
    let pack = ptt_url::decode("https://example.org/?m=vg&b=32").unwrap();
    assert_eq!(pack.cell_contents.dims(), (3, 2));
    assert_eq!(pack.mines, 6);
    assert!(ptt_url::decode("not a link").is_none());
    assert!(ptt_url::decode("https://example.org/?b=1").is_none());
    assert!(ptt_url::decode("https://example.org/#?b=1&m=0").is_none());
}

#[test]
fn llama_links() {
    let cells = corner_mine(16, 16);
    let link = llama_url::encode(&cells);
    assert!(link.starts_with("https://llamasweeper.com/#/game/board-editor?b=2&m=g000"));
    assert_eq!(link.len(), "https://llamasweeper.com/#/game/board-editor?b=2&m=".len() + 52);
    let pack = llama_url::decode(&link).unwrap();
    assert_eq!(pack.cell_contents.data(), cells.data());
    assert!(llama_url::decode("https://llamasweeper.com/?b=2&m=0").is_none());
    assert!(llama_url::decode("https://llamasweeper.com/#/game").is_none());
    assert!(llama_url::decode("nothing").is_none());
    assert_eq!(llama_url::query_of(&"a?b?c".chars().collect()), Some(vec!['b', '?', 'c']));
    assert_eq!(llama_url::query_of(&"abc".chars().collect()), None);
}
