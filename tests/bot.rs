use tedbot::bot::{activity, order_reply, Activity, ActivityKind, ConfigActivity, OrderItem};

#[test]
fn order_replies() {
    assert_eq!(order_reply(OrderItem::GalleyBoy, 0), "<:galleyboy:915674675684712509>");
    assert_eq!(
        order_reply(OrderItem::BingChilling, 1),
        "https://www.youtube.com/watch?v=vE-kqcNh-bo"
    );
}

fn cfg(kind: Option<&str>, name: Option<&str>, url: Option<&str>) -> ConfigActivity {
    ConfigActivity {
        kind: kind.map(String::from),
        name: name.map(String::from),
        streaming_url: url.map(String::from),
    }
}

#[test]
fn activities() {
    assert_eq!(
        activity(&cfg(Some("watching"), Some("the grid"), None)),
        Some(Activity { kind: ActivityKind::Watching, name: "the grid".to_string(), url: None })
    );
    assert_eq!(
        activity(&cfg(Some("streaming"), Some("x"), Some("https://t.tv/x"))),
        Some(Activity {
            kind: ActivityKind::Streaming,
            name: "x".to_string(),
            url: Some("https://t.tv/x".to_string())
        })
    );
    assert_eq!(activity(&cfg(Some("streaming"), Some("x"), None)), None);
    assert_eq!(activity(&cfg(Some("dancing"), Some("x"), None)), None);
    assert_eq!(activity(&cfg(None, Some("x"), None)), None);
    assert_eq!(activity(&cfg(Some("playing"), None, None)), None);
}
