use timemd::ntfy::{NtfyConfig, NtfyPatch};

const DEFAULT_SERVER: &str = "https://ntfy.sh";

fn with_topic(topic: &str) -> NtfyConfig {
    let mut config = NtfyConfig::default();
    config
        .apply(NtfyPatch { topic: Some(Some(topic.to_owned())), ..NtfyPatch::default() })
        .expect("a plain topic is usable");
    config
}

fn fields(config: &NtfyConfig) -> (String, Option<String>, Option<String>, Option<String>) {
    (
        config.server.clone(),
        config.topic.clone(),
        config.token.clone(),
        config.app_url.clone(),
    )
}

#[test]
fn an_empty_config_has_no_topic_and_the_public_server() {
    let config = NtfyConfig::default();

    assert_eq!(config.server, "https://ntfy.sh");
    assert_eq!(config.topic, None);
    assert_eq!(config.token, None);
    assert_eq!(config.app_url, None);
    assert!(!config.is_configured());
}

#[test]
fn ntfy_round_trips_through_render_and_parse() {
    let mut config = NtfyConfig::default();
    config
        .apply(NtfyPatch {
            server: Some("https://ntfy.example".to_owned()),
            topic: Some(Some("timemd-a7f3".to_owned())),
            token: Some(Some("tk_secret".to_owned())),
            app_url: Some(Some("https://box.ts.net".to_owned())),
        })
        .expect("all four are usable");

    let reparsed = NtfyConfig::parse(&config.render()).expect("parses");

    assert_eq!(fields(&reparsed), fields(&config));
    assert!(reparsed.is_configured());
}

#[test]
fn the_file_warns_that_it_holds_a_credential() {
    let rendered = NtfyConfig::default().render();
    assert!(rendered.contains("Do not commit or share this file"), "{rendered}");
}

#[test]
fn a_blank_server_falls_back_rather_than_publishing_nowhere() {
    let config = NtfyConfig::parse("---\nserver: '   '\ntopic: alpha\n---\n").expect("parses");

    assert_eq!(config.server, DEFAULT_SERVER);
    assert_eq!(config.topic.as_deref(), Some("alpha"));
}

#[test]
fn an_absent_topic_leaves_no_stray_key() {
    let rendered = NtfyConfig::default().render();

    assert!(!rendered.contains("topic"), "{rendered}");
    assert!(!rendered.contains("token"), "{rendered}");
    assert!(!rendered.contains("app_url"), "{rendered}");
}

#[test]
fn ntfy_unknown_frontmatter_survives() {
    let config = NtfyConfig::parse("---\ntopic: alpha\npriority: 5\n---\n").expect("parses");
    assert!(config.render().contains("priority: 5"));
}

#[test]
fn a_patch_only_touches_the_fields_it_names() {
    let mut config = with_topic("alpha");
    config
        .apply(NtfyPatch { app_url: Some(Some("https://box.ts.net".to_owned())), ..NtfyPatch::default() })
        .expect("a URL is usable");

    assert_eq!(config.topic.as_deref(), Some("alpha"));
    assert_eq!(config.server, DEFAULT_SERVER);
}

#[test]
fn clearing_the_topic_turns_the_channel_off_and_clearing_the_token_keeps_the_topic() {
    let mut config = with_topic("alpha");
    config
        .apply(NtfyPatch {
            server: Some("https://ntfy.example".to_owned()),
            token: Some(Some("tk_secret".to_owned())),
            ..NtfyPatch::default()
        })
        .expect("both are usable");

    config
        .apply(NtfyPatch { token: Some(None), ..NtfyPatch::default() })
        .expect("clearing is usable");
    assert_eq!(config.token, None);
    assert_eq!(config.topic.as_deref(), Some("alpha"));

    config
        .apply(NtfyPatch { topic: Some(None), ..NtfyPatch::default() })
        .expect("clearing is usable");
    assert!(!config.is_configured());
    assert_eq!(config.server, "https://ntfy.example", "turning it off must not forget where it pointed");
}

#[test]
fn a_blank_topic_clears_rather_than_failing() {
    let mut config = with_topic("alpha");
    config
        .apply(NtfyPatch { topic: Some(Some("  ".to_owned())), ..NtfyPatch::default() })
        .expect("blank is a request to clear");

    assert!(!config.is_configured());
}

#[test]
fn a_topic_with_a_slash_or_a_space_is_refused() {
    for bad in ["alpha/beta", "my topic", "alpha\nbeta"] {
        let mut config = NtfyConfig::default();
        let outcome = config.apply(NtfyPatch { topic: Some(Some(bad.to_owned())), ..NtfyPatch::default() });

        assert!(outcome.is_err(), "'{bad}' must be refused");
        assert!(!config.is_configured(), "'{bad}' must not be stored");
    }
}

#[test]
fn a_server_that_is_not_http_is_refused() {
    let mut config = NtfyConfig::default();
    let outcome = config.apply(NtfyPatch { server: Some("ntfy.sh".to_owned()), ..NtfyPatch::default() });

    assert!(outcome.is_err(), "a bare host cannot become a request");
    assert_eq!(config.server, DEFAULT_SERVER);
}

#[test]
fn an_app_url_that_is_not_http_is_refused() {
    let mut config = NtfyConfig::default();
    let outcome = config.apply(NtfyPatch { app_url: Some(Some("box.ts.net".to_owned())), ..NtfyPatch::default() });

    assert!(outcome.is_err());
    assert_eq!(config.app_url, None);
}

#[test]
fn a_click_joins_the_app_url_to_the_path_without_doubling_the_slash() {
    let mut config = NtfyConfig::default();
    config
        .apply(NtfyPatch { app_url: Some(Some("https://box.ts.net/".to_owned())), ..NtfyPatch::default() })
        .expect("a URL is usable");

    assert_eq!(config.click_for("/today").as_deref(), Some("https://box.ts.net/today"));
}

#[test]
fn there_is_no_click_without_an_app_url() {
    assert_eq!(with_topic("alpha").click_for("/today"), None);
}

#[test]
fn the_publish_url_ends_in_a_slash_and_the_subscribe_url_names_the_topic() {
    let mut config = with_topic("alpha");
    assert_eq!(config.publish_url(), "https://ntfy.sh/");
    assert_eq!(config.topic_url().as_deref(), Some("https://ntfy.sh/alpha"));

    config
        .apply(NtfyPatch { server: Some("https://example.com/ntfy/".to_owned()), ..NtfyPatch::default() })
        .expect("a URL is usable");

    assert_eq!(config.publish_url(), "https://example.com/ntfy/");
    assert_eq!(config.topic_url().as_deref(), Some("https://example.com/ntfy/alpha"));
}

#[test]
fn there_is_no_subscribe_url_while_the_channel_is_off() {
    assert_eq!(NtfyConfig::default().topic_url(), None);
}

#[test]
fn ntfy_an_empty_patch_is_empty_and_changes_nothing() {
    assert!(NtfyPatch::default().is_empty());
    assert!(
        !NtfyPatch { topic: Some(None), ..NtfyPatch::default() }.is_empty(),
        "turning the channel off is a write"
    );

    let mut config = with_topic("alpha");
    let before = fields(&config);
    config.apply(NtfyPatch::default()).expect("changes nothing");
    assert_eq!(fields(&config), before);
}

#[test]
fn refusals_name_what_was_wrong() {
    let mut config = NtfyConfig::default();
    let error = config
        .apply(NtfyPatch { server: Some(" ftp://x ".to_owned()), ..NtfyPatch::default() })
        .expect_err("not http");
    assert_eq!(error.message(), "server must start with http:// or https://, and 'ftp://x' does not");
    let error = config
        .apply(NtfyPatch { topic: Some(Some("a/b".to_owned())), ..NtfyPatch::default() })
        .expect_err("two segments");
    assert_eq!(
        error.message(),
        "'a/b' is not a topic: it is one path segment, so it cannot hold a slash or a space"
    );
}

#[test]
fn ntfy_keeps_hand_added_keys_of_every_kind_on_write() {
    let config = NtfyConfig::parse("---\ntopic: alpha\nmuted: false\nhours:\n- 9\n- 17\n---\n").expect("parses");
    let rendered = config.render();
    assert!(rendered.contains("muted: false"), "{rendered}");
    assert!(rendered.contains("hours:\n- 9\n- 17\n"), "{rendered}");
}
