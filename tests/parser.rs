use orca_bot::parser::{parse_html, parse_markdown, parse_orca_code, OrcaSource, ParseConfig, ParseError};

const DEFAULT_PARSE_CONFIG: ParseConfig = ParseConfig {
    max_line_length: 16,
    max_num_lines: 16,
    tag: "run",
};

fn chars(s: &str) -> Vec<char> {
    s.chars().collect()
}

#[test]
fn test_parsing_ok() {
    let input = ".....C8.........\n......8TCDGCGDCE\n....81X..D..C2..\n..........Y..A4.\n...........=0...";
    let OrcaSource { data, width } = parse_orca_code(input, &DEFAULT_PARSE_CONFIG).unwrap();
    assert!(data == ".....C8...............8TCDGCGDCE....81X..D..C2............Y..A4............=0...".chars().collect::<Vec<_>>());
    assert!(width == 16);
}

#[test]
fn test_parsing_html_ok() {
    let input = "<p><span class=\"h-card\" translate=\"no\"><a href=\"https://fedi.turbofish.cc/@orcabot\" class=\"u-url mention\">@<span>orcabot</span></a></span> <a href=\"https://mastodon.xyz/tags/run\" class=\"mention hashtag status-link\" rel=\"nofollow noopener noreferrer\" target=\"_blank\">#<span>run</span></a><br />.....C8.........<br />......8TCDGCGDCE<br />....81X..D..C2..<br />..........Y..A4.<br />...........=0...</p>";
    let OrcaSource { data, width } = parse_html(input, &DEFAULT_PARSE_CONFIG).unwrap();
    assert!(data == ".....C8...............8TCDGCGDCE....81X..D..C2............Y..A4............=0...".chars().collect::<Vec<_>>());
    assert!(width == 16);

    let input = "<p><span class=\"h-card\" translate=\"no\"><a href=\"https://fedi.turbofish.cc/@orcabot\" class=\"u-url mention\" rel=\"nofollow noopener noreferrer\" target=\"_blank\">@<span>orcabot</span></a></span> please <a href=\"https://mastodon.xyz/tags/run\" class=\"mention hashtag status-link\" rel=\"nofollow noopener noreferrer\" target=\"_blank\">#<span>run</span></a> this<br>.....C8.........<br>......8TCDGCGDCE<br>....81X..D..C2..<br>..........Y..A4.<br>...........=0...</p>";
    let OrcaSource { data, width } = parse_html(input, &DEFAULT_PARSE_CONFIG).unwrap();
    assert!(data == ".....C8...............8TCDGCGDCE....81X..D..C2............Y..A4............=0...".chars().collect::<Vec<_>>());
    assert!(width == 16);
}

#[test]
#[should_panic(expected = "No run tag found")]
fn test_parsing_html_fail_no_tag() {
    let input = "<p><span class=\"h-card\" translate=\"no\"><a href=\"https://fedi.turbofish.cc/@orcabot\" class=\"u-url mention\">@<span>orcabot</span></a></span><br />.....C8.........<br />......8TCDGCGDCE<br />....81X..D..C2..<br />..........Y..A4.<br />...........=0...</p>";
    parse_html(input, &DEFAULT_PARSE_CONFIG).map_err(|e| e.message()).unwrap();
}

#[test]
fn rectangular_grid_is_concatenated_rows() {
    let src = parse_orca_code("ab#\n.*=\n019", &DEFAULT_PARSE_CONFIG).unwrap();
    assert_eq!(src.width, 3);
    assert_eq!(src.data, chars("ab#.*=019"));
}

#[test]
fn surrounding_whitespace_is_trimmed() {
    let src = parse_orca_code("hello: \n  ab  \n  cd\t\n", &DEFAULT_PARSE_CONFIG);
    // "hello" is the first run of code characters, and ':' ends its block
    let src = src.unwrap();
    assert_eq!(src.width, 5);
    assert_eq!(src.data, chars("hello"));
    let src = parse_orca_code("!! ab  \ncd\t\n", &DEFAULT_PARSE_CONFIG).unwrap();
    assert_eq!(src.width, 2);
    assert_eq!(src.data, chars("abcd"));
    // a line that starts with whitespace ends the block with a blank line
    let r = parse_orca_code("ab\n  cd", &DEFAULT_PARSE_CONFIG);
    assert!(matches!(r, Err(ParseError::MismatchLineLengths)));
}

#[test]
fn mismatched_lengths_are_refused() {
    let r = parse_orca_code("abc\nab\nabc", &DEFAULT_PARSE_CONFIG);
    assert!(matches!(r, Err(ParseError::MismatchLineLengths)));
    let r = parse_orca_code("ab\nabc", &DEFAULT_PARSE_CONFIG);
    assert!(matches!(r, Err(ParseError::MismatchLineLengths)));
}

#[test]
fn blank_line_inside_block_is_a_mismatch() {
    let r = parse_orca_code("ab\n\ncd", &DEFAULT_PARSE_CONFIG);
    assert!(matches!(r, Err(ParseError::MismatchLineLengths)));
}

#[test]
fn long_lines_are_refused() {
    let r = parse_orca_code("abcdefghijklmnopq\nabcdefghijklmnopq", &DEFAULT_PARSE_CONFIG);
    assert!(matches!(r, Err(ParseError::LinesTooLong)));
    let ok = parse_orca_code("abcdefghijklmnop", &DEFAULT_PARSE_CONFIG).unwrap();
    assert_eq!(ok.width, 16);
}

#[test]
fn text_without_code_is_refused() {
    assert!(matches!(parse_orca_code("", &DEFAULT_PARSE_CONFIG), Err(ParseError::NoCodeFound)));
    assert!(matches!(parse_orca_code(" ;: !\n", &DEFAULT_PARSE_CONFIG), Err(ParseError::NoCodeFound)));
}

#[test]
fn only_max_num_lines_are_taken() {
    let cfg = ParseConfig { tag: "run", max_line_length: 8, max_num_lines: 2 };
    let src = parse_orca_code("ab\ncd\nef\ng", &cfg).unwrap();
    assert_eq!(src.data, chars("abcd"));
    let cfg = ParseConfig { tag: "run", max_line_length: 8, max_num_lines: 0 };
    assert!(matches!(parse_orca_code("ab\ncd", &cfg), Err(ParseError::NoCodeFound)));
}

#[test]
fn iter_lines_gives_rows_in_order() {
    let src = parse_orca_code("AB\ncd", &DEFAULT_PARSE_CONFIG).unwrap();
    let mut it = src.iter_lines();
    assert_eq!(it.next(), Some(&['A', 'B'][..]));
    assert_eq!(it.next(), Some(&['c', 'd'][..]));
    assert_eq!(it.next(), None);
    let mut again = src.iter_lines();
    assert_eq!(again.next(), Some(&['A', 'B'][..]));
}

#[test]
fn markdown_needs_tag_in_first_line() {
    let r = parse_markdown("@bot hello\n\nab\ncd", &DEFAULT_PARSE_CONFIG);
    assert!(matches!(r, Err(ParseError::NoPreludeFound)));
    let r = parse_markdown("", &DEFAULT_PARSE_CONFIG);
    assert!(matches!(r, Err(ParseError::NoPreludeFound)));
    let src = parse_markdown("\n  \n@bot #run\n\nab\ncd", &DEFAULT_PARSE_CONFIG).unwrap();
    assert_eq!(src.data, chars("abcd"));
}

#[test]
fn markdown_escaped_stars_are_unescaped() {
    let src = parse_markdown("#run\n\\*a.\n.\\*b", &DEFAULT_PARSE_CONFIG).unwrap();
    assert_eq!(src.width, 3);
    assert_eq!(src.data, chars("*a..*b"));
}

#[test]
fn html_rendering_feeds_the_grid() {
    let src = parse_html("<p>#run<br>a*b<br>c*d</p>", &DEFAULT_PARSE_CONFIG).unwrap();
    assert_eq!(src.width, 3);
    assert_eq!(src.data, chars("a*bc*d"));
}

#[test]
fn default_config() {
    let cfg = ParseConfig::default();
    assert_eq!(cfg.tag, "run");
    assert_eq!(cfg.max_line_length, 64);
    assert_eq!(cfg.max_num_lines, 64);
}

#[test]
fn error_messages() {
    assert_eq!(ParseError::NoCodeFound.message(), "No Orca source code found");
    assert_eq!(ParseError::LinesTooLong.message(), "Lines are too long");
}

#[test]
fn trailing_padding_is_trimmed_and_rows_kept() {
    let src = parse_orca_code("ab  \ncd\t\nef ", &DEFAULT_PARSE_CONFIG).unwrap();
    assert_eq!(src.width, 2);
    assert_eq!(src.data, chars("abcdef"));
    let mut it = src.iter_lines();
    assert_eq!(it.next(), Some(&['a', 'b'][..]));
    assert_eq!(it.next(), Some(&['c', 'd'][..]));
    assert_eq!(it.next(), Some(&['e', 'f'][..]));
    assert_eq!(it.next(), None);
}

#[test]
fn padded_mismatch_is_refused() {
    let r = parse_orca_code("abc \nab\t\nabc", &DEFAULT_PARSE_CONFIG);
    assert!(matches!(r, Err(ParseError::MismatchLineLengths)));
}
