//! The decisions behind the bot's menu and presence: what an order replies, and
//! which activity a configuration asks for.

use vstd::prelude::*;

verus! {

/// Items of the menu.
#[derive(Debug, Clone, Copy, PartialEq, Eq, Structural)]
pub enum OrderItem {
    GalleyBoy,
    BingChilling,
}

pub const GALLEY_BOY: &'static str = "<:galleyboy:915674675684712509>";

/// How many videos an order of bing chilling picks from.
pub const BING_CHILLINGS_LEN: usize = 3;

/// The reply to an order; for bing chilling, video `pick` of the list.
pub fn order_reply(item: OrderItem, pick: usize) -> (r: &'static str)
    requires
        item == OrderItem::BingChilling ==> pick < BING_CHILLINGS_LEN,
    ensures
        item == OrderItem::GalleyBoy ==> r@ == GALLEY_BOY@,
        item == OrderItem::BingChilling && pick == 0 ==> r@
            == "https://www.youtube.com/watch?v=BMvqvnyGtGo"@,
        item == OrderItem::BingChilling && pick == 1 ==> r@
            == "https://www.youtube.com/watch?v=vE-kqcNh-bo"@,
        item == OrderItem::BingChilling && pick == 2 ==> r@
            == "https://www.youtube.com/watch?v=rhfVXoEhd1c"@,
{
    match item {
        OrderItem::GalleyBoy => GALLEY_BOY,
        OrderItem::BingChilling => {
            if pick == 0 {
                "https://www.youtube.com/watch?v=BMvqvnyGtGo"
            } else if pick == 1 {
                "https://www.youtube.com/watch?v=vE-kqcNh-bo"
            } else {
                "https://www.youtube.com/watch?v=rhfVXoEhd1c"
            }
        },
    }
}

/// What the bot can be shown doing.
#[derive(Debug, Clone, Copy, PartialEq, Eq, Structural)]
pub enum ActivityKind {
    Competing,
    Listening,
    Playing,
    Streaming,
    Watching,
}

/// The activity section of the configuration file.
#[derive(Debug, Clone, PartialEq, Eq)]
pub struct ConfigActivity {
    pub kind: Option<String>,
    pub name: Option<String>,
    pub streaming_url: Option<String>,
}

/// A complete activity: what, under which name, and for streaming, where.
#[derive(Debug, Clone, PartialEq, Eq)]
pub struct Activity {
    pub kind: ActivityKind,
    pub name: String,
    pub url: Option<String>,
}

/// The kind that a configured word names.
pub open spec fn kind_named(s: Seq<char>) -> Option<ActivityKind> {
    if s == "competing"@ {
        Some(ActivityKind::Competing)
    } else if s == "listening"@ {
        Some(ActivityKind::Listening)
    } else if s == "playing"@ {
        Some(ActivityKind::Playing)
    } else if s == "streaming"@ {
        Some(ActivityKind::Streaming)
    } else if s == "watching"@ {
        Some(ActivityKind::Watching)
    } else {
        None
    }
}

fn same_text(a: &str, b: &str) -> (r: bool)
    ensures
        r == (a@ == b@),
{
    let n = a.unicode_len();
    if n != b.unicode_len() {
        return false;
    }
    let mut i: usize = 0;
    while i < n
        invariant
            n == a@.len() == b@.len(),
            i <= n,
            a@.take(i as int) == b@.take(i as int),
        decreases n - i,
    {
        if a.get_char(i) != b.get_char(i) {
            return false;
        }
        assert(a@.take(i + 1) =~= a@.take(i as int).push(a@[i as int]));
        assert(b@.take(i + 1) =~= b@.take(i as int).push(b@[i as int]));
        i = i + 1;
    }
    assert(a@.take(n as int) =~= a@);
    assert(b@.take(n as int) =~= b@);
    true
}

fn kind_of(s: &str) -> (r: Option<ActivityKind>)
    ensures
        r == kind_named(s@),
{
    if same_text(s, "competing") {
        Some(ActivityKind::Competing)
    } else if same_text(s, "listening") {
        Some(ActivityKind::Listening)
    } else if same_text(s, "playing") {
        Some(ActivityKind::Playing)
    } else if same_text(s, "streaming") {
        Some(ActivityKind::Streaming)
    } else if same_text(s, "watching") {
        Some(ActivityKind::Watching)
    } else {
        None
    }
}

/// The activity that a configuration asks for: a known kind and a name are
/// needed, and for streaming also a URL; anything less asks for none.
pub fn activity(cfg: &ConfigActivity) -> (r: Option<Activity>)
    ensures
        match (cfg.kind, cfg.name) {
            (Some(k), Some(n)) => match kind_named(k@) {
                Some(ActivityKind::Streaming) => match cfg.streaming_url {
                    Some(u) => r == Some(
                        Activity { kind: ActivityKind::Streaming, name: n, url: Some(u) },
                    ),
                    None => r is None,
                },
                Some(kind) => r == Some(Activity { kind, name: n, url: None }),
                None => r is None,
            },
            _ => r is None,
        },
{
    let (k, n) = match (&cfg.kind, &cfg.name) {
        (Some(k), Some(n)) => (k, n),
        _ => {
            return None;
        },
    };
    let kind = match kind_of(k.as_str()) {
        Some(kind) => kind,
        None => {
            return None;
        },
    };
    let name = n.clone();
    match kind {
        ActivityKind::Streaming => match &cfg.streaming_url {
            Some(u) => Some(Activity { kind, name, url: Some(u.clone()) }),
            None => None,
        },
        _ => Some(Activity { kind, name, url: None }),
    }
}

} // verus!
