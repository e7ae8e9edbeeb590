use link_rewriter::{mirror_link, LinkRewriter, RewriteError, STATUS_LINK_PATTERN};

fn rewriter() -> LinkRewriter {
    match LinkRewriter::new() {
        Ok(r) => r,
        Err(e) => panic!("pattern did not compile: {:?}", e),
    }
}

fn transform(text: &str) -> (String, bool) {
    rewriter().transform(text)
}

#[test]
fn text_without_trigger_is_unchanged() {
    for text in ["", "hello world", "see https://example.com/a/status/1", "  \t\n ", "x.com/a/status/1"] {
        assert_eq!(transform(text), (text.to_string(), false));
    }
}

#[test]
fn twitter_status_link_goes_to_fxtwitter() {
    assert_eq!(
        transform("https://twitter.com/alice/status/123"),
        ("https://fxtwitter.com/alice/status/123".to_string(), true)
    );
}

#[test]
fn x_status_link_goes_to_fixupx() {
    assert_eq!(
        transform("https://x.com/bob/status/456"),
        ("https://fixupx.com/bob/status/456".to_string(), true)
    );
}

#[test]
fn two_links_from_two_hosts_are_both_rewritten() {
    assert_eq!(
        transform("check this https://twitter.com/a/status/1 and https://x.com/b/status/2 out"),
        (
            "check this https://fxtwitter.com/a/status/1 and https://fixupx.com/b/status/2 out"
                .to_string(),
            true
        )
    );
}

#[test]
fn profile_link_is_unchanged() {
    assert_eq!(
        transform("https://twitter.com/alice"),
        ("https://twitter.com/alice".to_string(), false)
    );
}

#[test]
fn rewriting_twice_changes_nothing_more() {
    for text in [
        "check this https://twitter.com/a/status/1 and https://x.com/b/status/2 out",
        "https://x.com/https://twitter.com/a/status/1",
        "https://x.com/a/status/1,https://x.com/b/status/2",
        "https://twitter.com/alice plain words",
    ] {
        let once = transform(text).0;
        assert_eq!(transform(&once), (once.clone(), false));
    }
}

#[test]
fn hyphen_in_user_name_is_no_match() {
    assert_eq!(
        transform("https://twitter.com/al-ice/status/1"),
        ("https://twitter.com/al-ice/status/1".to_string(), false)
    );
}

#[test]
fn letters_in_id_end_the_match() {
    assert_eq!(
        transform("https://x.com/a/status/12abc"),
        ("https://fixupx.com/a/status/12abc".to_string(), true)
    );
    assert_eq!(
        transform("https://x.com/a/status/abc"),
        ("https://x.com/a/status/abc".to_string(), false)
    );
}

#[test]
fn text_around_a_link_in_a_word_is_kept() {
    assert_eq!(
        transform("(https://twitter.com/a_1/status/99)!"),
        ("(https://fxtwitter.com/a_1/status/99)!".to_string(), true)
    );
}

#[test]
fn several_links_in_one_word_are_all_rewritten() {
    assert_eq!(
        transform("https://x.com/a/status/1,https://twitter.com/b/status/2"),
        ("https://fixupx.com/a/status/1,https://fxtwitter.com/b/status/2".to_string(), true)
    );
}

#[test]
fn equal_words_are_rewritten_alike_and_spacing_is_kept() {
    assert_eq!(
        transform("https://x.com/a/status/1\t\thttps://x.com/a/status/1  \n"),
        ("https://fixupx.com/a/status/1\t\thttps://fixupx.com/a/status/1  \n".to_string(), true)
    );
}

#[test]
fn non_ascii_text_around_links_is_kept() {
    assert_eq!(
        transform("見て\u{3000}https://x.com/b/status/7 です"),
        ("見て\u{3000}https://fixupx.com/b/status/7 です".to_string(), true)
    );
}

#[test]
fn mirror_host_is_no_source_host() {
    assert_eq!(
        transform("https://fxtwitter.com/a/status/1 https://fixupx.com/b/status/2"),
        ("https://fxtwitter.com/a/status/1 https://fixupx.com/b/status/2".to_string(), false)
    );
}

#[test]
fn convert_replaces_only_the_link() {
    let r = rewriter();
    assert_eq!(
        r.convert_twitter_url("xhttps://twitter.com/u/status/5y"),
        "xhttps://fxtwitter.com/u/status/5y"
    );
    assert_eq!(r.convert_twitter_url("https://x.com/u"), "https://x.com/u");
}

#[test]
fn handle_message_answers_only_on_change() {
    let r = rewriter();
    assert_eq!(
        r.handle_message("look https://x.com/bob/status/456"),
        Some("look https://fixupx.com/bob/status/456".to_string())
    );
    assert_eq!(r.handle_message("look https://x.com/bob"), None);
    assert_eq!(r.handle_message(""), None);
}

#[test]
fn mirror_link_maps_each_host() {
    assert_eq!(mirror_link("twitter", "alice", "123"), "https://fxtwitter.com/alice/status/123");
    assert_eq!(mirror_link("x", "bob", "456"), "https://fixupx.com/bob/status/456");
}

#[test]
fn pattern_compiles() {
    assert!(LinkRewriter::new().is_ok());
    assert!(STATUS_LINK_PATTERN.starts_with("https://"));
    assert_eq!(RewriteError::InvalidPattern, RewriteError::InvalidPattern);
}

#[test]
fn trigger_word_is_replaced_by_value_in_the_whole_text() {
    assert_eq!(
        transform("https://x.com/a/status/1 https://x.com/a/status/1,https://x.com/b/status/2"),
        (
            "https://fixupx.com/a/status/1 https://fixupx.com/a/status/1,https://x.com/b/status/2"
                .to_string(),
            true
        )
    );
}

#[test]
fn occurrence_inside_a_later_word_is_replaced_too() {
    assert_eq!(
        transform("https://twitter.com/u/status/9 see:https://twitter.com/u/status/9"),
        (
            "https://fxtwitter.com/u/status/9 see:https://fxtwitter.com/u/status/9".to_string(),
            true
        )
    );
}

#[test]
fn word_changed_by_an_earlier_word_is_left_for_a_later_pass() {
    let once = transform("https://x.com/a/status/1 https://x.com/a/status/1,https://x.com/b/status/2").0;
    assert_eq!(
        transform(&once),
        (
            "https://fixupx.com/a/status/1 https://fixupx.com/a/status/1,https://fixupx.com/b/status/2"
                .to_string(),
            true
        )
    );
}
