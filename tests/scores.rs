use eda_tester::scores::{parse_score, parse_scores, score_captures};

fn chars(s: &str) -> Vec<char> {
    s.chars().collect()
}

fn caps(s: &str) -> Vec<String> {
    score_captures(&chars(s)).into_iter().map(|c| c.into_iter().collect()).collect()
}

#[test]
fn scores_follow_textual_order_whatever_the_token() {
    let text = "info\nplayer Zed got score 7\nplayer a.b-c got score 120\nplayer 42 got score 0\nplayer Bob got score 33\n";
    assert_eq!(parse_scores(&chars(text)), Some([7, 120, 0, 33]));
    assert_eq!(caps(text), vec!["7", "120", "0", "33"]);
}

#[test]
fn missing_score_lines_default_to_zero() {
    assert_eq!(parse_scores(&chars("player A got score 5\nplayer B got score 6\n")), Some([5, 6, 0, 0]));
    assert_eq!(parse_scores(&chars("nothing here")), Some([0, 0, 0, 0]));
    assert_eq!(parse_scores(&chars("")), Some([0, 0, 0, 0]));
}

#[test]
fn lines_that_do_not_match_are_skipped() {
    let text = "player A scored 9\nplayer B C got score 4\nplayer  got score 8\nplayerX got score 1\n";
    assert_eq!(caps(text), vec!["8"]);
    assert_eq!(parse_scores(&chars(text)), Some([8, 0, 0, 0]));
}

#[test]
fn lines_embedded_in_text_are_found() {
    assert_eq!(caps("xxplayer p got score 12abc player q got score 3"), vec!["12", "3"]);
}

#[test]
fn malformed_scores_are_refused() {
    assert_eq!(parse_scores(&chars("player A got score x\n")), None);
    assert_eq!(parse_scores(&chars("player A got score 4294967296\n")), None);
    let five = "player a got score 1\nplayer b got score 2\nplayer c got score 3\nplayer d got score 4\nplayer e got score 5\n";
    assert_eq!(parse_scores(&chars(five)), None);
}

#[test]
fn parse_score_values() {
    assert_eq!(parse_score(&chars("0")), Some(0));
    assert_eq!(parse_score(&chars("007")), Some(7));
    assert_eq!(parse_score(&chars("4294967295")), Some(u32::MAX));
    assert_eq!(parse_score(&chars("4294967296")), None);
    assert_eq!(parse_score(&chars("")), None);
    assert_eq!(parse_score(&chars("12a")), None);
}
