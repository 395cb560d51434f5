use chat_bridge::content::{
    build_reply_header, find_char_from, find_ping, first_line_of, format_with_reply, has_prefix,
    same_text, sanitize, strip_reply, trim_end_char, trim_start_char,
};

#[test]
fn sanitize_marks_a_mention() {
    assert_eq!(sanitize("hello @world"), "hello @\u{200B}world");
}

#[test]
fn sanitize_keeps_the_visible_text() {
    let out = sanitize("@a @@b");
    assert_eq!(out, "@\u{200B}a @\u{200B}@\u{200B}b");
    assert_eq!(out.replace('\u{200B}', ""), "@a @@b");
}

#[test]
fn sanitize_without_mentions_is_identity() {
    assert_eq!(sanitize("plain text"), "plain text");
    assert_eq!(sanitize(""), "");
    assert_eq!(sanitize("héllo ünïcode"), "héllo ünïcode");
}

#[test]
fn strip_reply_drops_leading_quote() {
    assert_eq!(strip_reply("> old\n> more\nactual message"), "actual message\n");
}

#[test]
fn strip_reply_without_quote_is_unchanged() {
    assert_eq!(strip_reply("actual message"), "actual message\n");
    assert_eq!(strip_reply("line one\nline two\n"), "line one\nline two\n");
    assert_eq!(strip_reply(""), "");
}

#[test]
fn strip_reply_keeps_later_quotes() {
    assert_eq!(strip_reply("> q\nbody\n> later"), "body\n> later\n");
}

#[test]
fn strip_reply_stops_at_blank_line() {
    assert_eq!(strip_reply("> q\n\nbody"), "\nbody\n");
}

#[test]
fn strip_reply_of_only_quotes_is_empty() {
    assert_eq!(strip_reply("> a\n> b"), "");
    assert_eq!(strip_reply("> a\n"), "");
}

#[test]
fn strip_reply_needs_the_space() {
    assert_eq!(strip_reply(">not a quote"), ">not a quote\n");
}

#[test]
fn reply_header_truncates_long_line() {
    let line: String = std::iter::repeat('x').take(100).collect();
    let header = build_reply_header("<@1>", &line, &None);
    let expected = format!("> <@1> {}...", "x".repeat(64));
    assert_eq!(header, expected);
}

#[test]
fn reply_header_keeps_short_line() {
    let line = "y".repeat(64);
    assert_eq!(build_reply_header("p", &line, &None), format!("> p {}", line));
}

#[test]
fn reply_header_links_summary() {
    let link = Some("https://discord.com/channels/1/2/3".to_string());
    assert_eq!(
        build_reply_header("@bob:hs", "hi there", &link),
        "> @bob:hs [hi there](https://discord.com/channels/1/2/3)"
    );
}

#[test]
fn format_with_reply_joins_header_and_body() {
    assert_eq!(
        format_with_reply("> quoted\nanswer", "> p q"),
        "> p q\nanswer\n"
    );
}

#[test]
fn first_line_stops_at_newline() {
    assert_eq!(first_line_of("one\ntwo"), "one");
    assert_eq!(first_line_of("single"), "single");
    assert_eq!(first_line_of(""), "");
}

#[test]
fn find_ping_of_puppet_is_gateway_mention() {
    assert_eq!(find_ping("@_discord_1234:example.org", "_discord_"), "<@1234>");
    assert_eq!(find_ping("<@_discord_77:example.org>", "_discord_"), "<@77>");
}

#[test]
fn find_ping_of_federated_user_is_bare_id() {
    assert_eq!(find_ping("@alice:example.org", "_discord_"), "@alice:example.org");
    assert_eq!(find_ping("<@alice:example.org>", "_discord_"), "@alice:example.org");
}

#[test]
fn text_helpers() {
    assert_eq!(trim_start_char("<<a<", '<'), "a<");
    assert_eq!(trim_end_char(">a>>", '>'), ">a");
    assert!(has_prefix("abc", "ab"));
    assert!(!has_prefix("ab", "abc"));
    assert!(same_text("é", "é"));
    assert!(!same_text("a", "ab"));
    assert_eq!(find_char_from("a:b:c", ':', 2), 3);
    assert_eq!(find_char_from("abc", ':', 0), 3);
}
