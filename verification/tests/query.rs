use telegram_inline_quotations_bot::handler::{CACHE_TIME, MAX_RESULTS, SAMPLE_SIZE};
use telegram_inline_quotations_bot::lines::{split_lines, CARRIAGE_RETURN, LINE_FEED};
use telegram_inline_quotations_bot::{InlineQuery, InlineQueryHandler, ResultSet};

fn handler_of(lines: &[&str]) -> InlineQueryHandler {
    let mut source: Vec<u8> = Vec::new();
    for line in lines {
        source.extend_from_slice(line.as_bytes());
        source.push(b'\n');
    }
    InlineQueryHandler::new(&source)
}

fn numbered(prefix: &str, count: usize) -> Vec<String> {
    (0..count).map(|n| format!("{}{}", prefix, n)).collect()
}

fn handler_of_owned(lines: &[String]) -> InlineQueryHandler {
    InlineQueryHandler::new(lines.join("\n").as_bytes())
}

fn ids(result: &ResultSet) -> Vec<String> {
    result.items.iter().map(|item| item.id.clone()).collect()
}

fn display_texts(result: &ResultSet) -> Vec<String> {
    result.items.iter().map(|item| item.display_text.clone()).collect()
}

#[test]
fn empty_query_on_small_store_returns_all_in_order() {
    let handler = handler_of(&["alpha", "beta", "gamma"]);
    let result = handler.query("");
    assert_eq!(ids(&result), vec!["alpha", "beta", "gamma"]);
    assert_eq!(display_texts(&result), vec!["alpha", "beta", "gamma"]);
}

#[test]
fn empty_query_on_store_of_sample_size_returns_all_in_order() {
    let handler = handler_of(&["a", "b", "c", "d", "e"]);
    assert_eq!(ids(&handler.query("")), vec!["a", "b", "c", "d", "e"]);
}

#[test]
fn empty_query_on_large_store_returns_five_distinct() {
    let lines = numbered("line ", 10);
    let handler = handler_of_owned(&lines);
    for _ in 0..50 {
        let result = handler.query("");
        let got = ids(&result);
        assert_eq!(got.len(), 5);
        for (i, id) in got.iter().enumerate() {
            assert!(lines.contains(id));
            assert_eq!(&result.items[i].display_text, id);
            for other in &got[i + 1..] {
                assert_ne!(id, other);
            }
        }
    }
}

#[test]
fn empty_query_on_store_of_six_returns_five() {
    let handler = handler_of(&["a", "b", "c", "d", "e", "f"]);
    let got = ids(&handler.query(""));
    assert_eq!(got.len(), 5);
    let mut sorted = got.clone();
    sorted.sort();
    sorted.dedup();
    assert_eq!(sorted.len(), 5);
}

#[test]
fn empty_query_draws_positions_not_texts() {
    let handler = handler_of(&["same", "same", "same", "same", "same", "same", "same"]);
    let got = ids(&handler.query(""));
    assert_eq!(got, vec!["same", "same", "same", "same", "same"]);
}

#[test]
fn empty_query_reaches_every_quotation() {
    let lines = numbered("q", 8);
    let handler = handler_of_owned(&lines);
    let mut seen: Vec<String> = Vec::new();
    for _ in 0..400 {
        for id in ids(&handler.query("")) {
            if !seen.contains(&id) {
                seen.push(id);
            }
        }
    }
    assert_eq!(seen.len(), 8);
}

#[test]
fn query_keeps_matches_in_store_order() {
    let handler = handler_of(&["I like cats", "I like dogs", "no pets"]);
    let result = handler.query("like");
    assert_eq!(ids(&result), vec!["I like cats", "I like dogs"]);
    assert_eq!(display_texts(&result), vec!["I like cats", "I like dogs"]);
}

#[test]
fn query_without_match_is_empty() {
    let handler = handler_of(&["only one line"]);
    assert!(handler.query("missing").items.is_empty());
}

#[test]
fn query_is_cut_after_fifty_matches() {
    let lines = numbered("x", 60);
    let handler = handler_of_owned(&lines);
    let result = handler.query("x");
    assert_eq!(result.items.len(), 50);
    assert_eq!(ids(&result), lines[..50].to_vec());
}

#[test]
fn query_with_exactly_fifty_matches_keeps_all() {
    let lines = numbered("x", 50);
    let handler = handler_of_owned(&lines);
    assert_eq!(ids(&handler.query("x")), lines);
}

#[test]
fn cap_counts_matches_not_lines() {
    let mut lines = numbered("miss ", 30);
    lines.extend(numbered("hit ", 55));
    let handler = handler_of_owned(&lines);
    let result = handler.query("hit");
    assert_eq!(ids(&result), lines[30..80].to_vec());
}

#[test]
fn empty_store_answers_with_nothing() {
    let handler = handler_of(&[]);
    assert!(handler.query("").items.is_empty());
    assert!(handler.query("anything").items.is_empty());
}

#[test]
fn undecoded_lines_are_skipped() {
    let source: &[u8] = b"\xff\xfe\nfirst\n\xc3\nsecond\nbad \xe2\x82 end\n";
    let handler = InlineQueryHandler::new(source);
    assert_eq!(ids(&handler.query("")), vec!["first", "second"]);
}

#[test]
fn multibyte_lines_are_decoded() {
    let handler = InlineQueryHandler::new("caf\u{e9}\n\u{65e5}\u{672c}\u{8a9e}\n".as_bytes());
    assert_eq!(ids(&handler.query("")), vec!["caf\u{e9}", "\u{65e5}\u{672c}\u{8a9e}"]);
}

#[test]
fn source_without_final_line_feed_keeps_its_last_line() {
    let handler = InlineQueryHandler::new(b"alpha\nbeta");
    assert_eq!(ids(&handler.query("")), vec!["alpha", "beta"]);
}

#[test]
fn carriage_return_before_line_feed_is_dropped() {
    let handler = InlineQueryHandler::new(b"alpha\r\nbeta\r\n");
    assert_eq!(ids(&handler.query("")), vec!["alpha", "beta"]);
}

#[test]
fn empty_lines_are_quotations() {
    let handler = InlineQueryHandler::new(b"a\n\nb\n");
    assert_eq!(ids(&handler.query("")), vec!["a", "", "b"]);
    assert_eq!(ids(&handler.query("b")), vec!["b"]);
}

#[test]
fn duplicate_lines_are_kept() {
    let handler = handler_of(&["twice", "once", "twice"]);
    assert_eq!(ids(&handler.query("")), vec!["twice", "once", "twice"]);
    assert_eq!(ids(&handler.query("twice")), vec!["twice", "twice"]);
}

#[test]
fn match_is_case_sensitive() {
    let handler = handler_of(&["I like cats", "I Like dogs"]);
    assert_eq!(ids(&handler.query("Like")), vec!["I Like dogs"]);
    assert_eq!(ids(&handler.query("LIKE")), Vec::<String>::new());
}

#[test]
fn match_is_contiguous() {
    let handler = handler_of(&["abc", "a-b-c", "xxabcxx"]);
    assert_eq!(ids(&handler.query("abc")), vec!["abc", "xxabcxx"]);
}

#[test]
fn match_is_exact_on_characters() {
    let handler = handler_of(&["cafe", "café", "naïve café au lait"]);
    assert_eq!(ids(&handler.query("é")), vec!["café", "naïve café au lait"]);
    assert_eq!(ids(&handler.query("e")), vec!["cafe", "naïve café au lait"]);
    assert_eq!(ids(&handler.query("fe")), vec!["cafe"]);
}

#[test]
fn query_longer_than_every_line_matches_nothing() {
    let handler = handler_of(&["ab", "abc"]);
    assert!(handler.query("abcd").items.is_empty());
}

#[test]
fn every_match_contains_the_query() {
    let handler = handler_of(&["red fox", "blue fox", "red hen", "fox", "ox"]);
    let result = handler.query("fox");
    assert_eq!(result.items.len(), 3);
    for item in &result.items {
        assert!(item.display_text.contains("fox"));
        assert_eq!(item.id, item.display_text);
    }
}

#[test]
fn same_query_gives_same_answer() {
    let handler = handler_of(&["red fox", "blue fox", "red hen"]);
    assert_eq!(handler.query("red"), handler.query("red"));
    assert_eq!(handler.query("none"), handler.query("none"));
}

#[test]
fn quotation_is_found_by_its_own_text() {
    let lines = ["alpha", "alphabet", "beta", "bet"];
    let handler = handler_of(&lines);
    for line in lines {
        let result = handler.query(line);
        assert!(result.items.iter().any(|item| item.id == line && item.display_text == line));
    }
}

#[test]
fn answers_never_exceed_the_cap() {
    let lines = numbered("entry ", 120);
    let handler = handler_of_owned(&lines);
    for q in ["", "e", "entry 1", "zzz"] {
        assert!(handler.query(q).items.len() <= 50);
    }
}

#[test]
fn matching_positions_ascend() {
    let handler = handler_of(&["I like cats", "no pets", "I like dogs"]);
    assert_eq!(handler.matching_positions("like"), vec![0, 2]);
    assert_eq!(handler.matching_positions("pets"), vec![1]);
    assert_eq!(handler.matching_positions("birds"), Vec::<usize>::new());
}

#[test]
fn items_at_follows_the_given_positions() {
    let handler = handler_of(&["zero", "one", "two", "three"]);
    let result = handler.items_at(&vec![2, 0, 3]);
    assert_eq!(ids(&result), vec!["two", "zero", "three"]);
    assert_eq!(display_texts(&result), vec!["two", "zero", "three"]);
    assert!(handler.items_at(&vec![]).items.is_empty());
}

#[test]
fn items_at_is_cut_after_fifty() {
    let lines = numbered("n", 70);
    let handler = handler_of_owned(&lines);
    let positions: Vec<usize> = (0..70).rev().collect();
    let result = handler.items_at(&positions);
    let expected: Vec<String> = (20..70).rev().map(|n| format!("n{}", n)).collect();
    assert_eq!(ids(&result), expected);
}

#[test]
fn handle_answers_under_the_query_id() {
    let handler = handler_of(&["I like cats", "I like dogs", "no pets"]);
    let update = InlineQuery { id: "42".to_string(), query: "dogs".to_string() };
    let answer = handler.handle(&update);
    assert_eq!(answer.inline_query_id, "42");
    assert_eq!(answer.cache_time, 5);
    assert_eq!(ids(&answer.results), vec!["I like dogs"]);
}

#[test]
fn handle_samples_on_empty_query() {
    let handler = handler_of(&["a", "b"]);
    let update = InlineQuery { id: "7".to_string(), query: String::new() };
    let answer = handler.handle(&update);
    assert_eq!(answer.inline_query_id, "7");
    assert_eq!(ids(&answer.results), vec!["a", "b"]);
}

#[test]
fn limits_have_their_values() {
    assert_eq!(MAX_RESULTS, 50);
    assert_eq!(SAMPLE_SIZE, 5);
    assert_eq!(CACHE_TIME, 5);
}

#[test]
fn split_lines_ends_lines_at_line_feeds() {
    assert_eq!(split_lines(b"one\ntwo\nthree\n"), vec![b"one".to_vec(), b"two".to_vec(), b"three".to_vec()]);
    assert_eq!(split_lines(b"one\ntwo"), vec![b"one".to_vec(), b"two".to_vec()]);
    assert_eq!(split_lines(b"\n"), vec![Vec::<u8>::new()]);
    assert_eq!(split_lines(b"\n\n"), vec![Vec::<u8>::new(), Vec::<u8>::new()]);
    assert_eq!(split_lines(b""), Vec::<Vec<u8>>::new());
}

#[test]
fn split_lines_drops_one_carriage_return_before_a_line_feed() {
    assert_eq!(split_lines(b"one\r\ntwo\r\n"), vec![b"one".to_vec(), b"two".to_vec()]);
    assert_eq!(split_lines(b"one\r\r\n"), vec![b"one\r".to_vec()]);
    assert_eq!(split_lines(b"\r\n"), vec![Vec::<u8>::new()]);
    assert_eq!(split_lines(b"a\rb\n"), vec![b"a\rb".to_vec()]);
}

#[test]
fn split_lines_keeps_a_carriage_return_at_the_end_of_the_source() {
    assert_eq!(split_lines(b"one\ntwo\r"), vec![b"one".to_vec(), b"two\r".to_vec()]);
    assert_eq!(split_lines(b"\r"), vec![b"\r".to_vec()]);
}

#[test]
fn split_lines_keeps_bytes_that_are_no_text() {
    assert_eq!(split_lines(b"\xff\n\x00\n"), vec![vec![0xffu8], vec![0u8]]);
}

#[test]
fn line_end_bytes_have_their_values() {
    assert_eq!(LINE_FEED, b'\n');
    assert_eq!(CARRIAGE_RETURN, b'\r');
}
