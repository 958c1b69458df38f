use pin_actions::action::{ActionRef, PinnedAction};

#[test]
fn test_parse_action_ref() {
    let action = ActionRef::parse("actions/checkout@v4").unwrap();
    assert_eq!(action.repository, "actions/checkout");
    assert_eq!(action.reference, "v4");
    assert!(!action.is_sha);
}

#[test]
fn test_parse_action_ref_with_sha() {
    let action =
        ActionRef::parse("actions/checkout@b4ffde65f46336ab88eb53be808477a3936bae11").unwrap();
    assert_eq!(action.repository, "actions/checkout");
    assert_eq!(action.reference, "b4ffde65f46336ab88eb53be808477a3936bae11");
    assert!(action.is_sha);
}

#[test]
fn test_is_local() {
    let action = ActionRef::parse("./local-action@v1").unwrap();
    assert!(action.is_local());

    let action = ActionRef::parse("actions/checkout@v4").unwrap();
    assert!(!action.is_local());
}

#[test]
fn test_git_url() {
    let action = ActionRef::parse("actions/checkout@v4").unwrap();
    assert_eq!(action.git_url(), "https://github.com/actions/checkout.git");
}

#[test]
fn test_pinned_action_format() {
    let action = ActionRef::parse("actions/checkout@v4").unwrap();
    let pinned = PinnedAction::new(action, "abc123".to_string());
    assert_eq!(pinned.format_uses_line(), "actions/checkout@abc123 # v4");
}

#[test]
fn parse_then_to_string_gives_the_text_back() {
    for text in [
        "actions/checkout@v4",
        "docker/build-push-action@v5.1.0",
        "owner/repo/path@refs/heads/main",
        "a@b@c",
        "a@",
        "actions/checkout@b4ffde65f46336ab88eb53be808477a3936bae11",
    ] {
        let action = ActionRef::parse(text).unwrap();
        assert_eq!(action.to_string(), text);
    }
}

#[test]
fn commit_hash_boundaries() {
    let hash = "b4ffde65f46336ab88eb53be808477a3936bae11";
    assert_eq!(hash.len(), 40);
    let at = |locator: &str| ActionRef::parse(&format!("actions/checkout@{}", locator)).unwrap();
    assert!(at(hash).is_sha);
    assert!(!at(&hash[..39]).is_sha);
    assert!(!at(&format!("{}0", hash)).is_sha);
    assert!(!at("B4ffde65f46336ab88eb53be808477a3936bae11").is_sha);
    assert!(!at("b4ffde65f46336ab88eb53be808477a3936bae1F").is_sha);
    assert!(!at("g4ffde65f46336ab88eb53be808477a3936bae11").is_sha);
    assert!(at("0123456789abcdef0123456789abcdef01234567").is_sha);
    assert!(!at("").is_sha);
}

#[test]
fn parse_cuts_the_locator_at_white_space_or_comment() {
    let action = ActionRef::parse("actions/checkout@v4 # the fourth").unwrap();
    assert_eq!(action.repository, "actions/checkout");
    assert_eq!(action.reference, "v4");

    let action = ActionRef::parse("actions/checkout@v4#pinned").unwrap();
    assert_eq!(action.reference, "v4");

    let action = ActionRef::parse("actions/checkout@v4\textra").unwrap();
    assert_eq!(action.reference, "v4");
}

#[test]
fn parse_drops_white_space_around_the_parts() {
    let action = ActionRef::parse("  actions/checkout @ v4  ").unwrap();
    assert_eq!(action.repository, "actions/checkout");
    assert_eq!(action.reference, "v4");
    assert_eq!(action.to_string(), "actions/checkout@v4");

    let action = ActionRef::parse("\u{a0}actions/checkout\u{3000}@\u{2003}v4").unwrap();
    assert_eq!(action.repository, "actions/checkout");
    assert_eq!(action.reference, "v4");
}

#[test]
fn parse_without_locator_names_the_default_branch() {
    let action = ActionRef::parse("actions/checkout").unwrap();
    assert_eq!(action.repository, "actions/checkout");
    assert_eq!(action.reference, "HEAD");
    assert!(!action.is_sha);
    assert_eq!(action.to_string(), "actions/checkout@HEAD");
}

#[test]
fn parse_splits_at_the_first_at_sign() {
    let action = ActionRef::parse("owner/repo@feature@2").unwrap();
    assert_eq!(action.repository, "owner/repo");
    assert_eq!(action.reference, "feature@2");
}

#[test]
fn parse_refuses_a_missing_or_broken_repository() {
    assert!(ActionRef::parse("").is_none());
    assert!(ActionRef::parse("   ").is_none());
    assert!(ActionRef::parse("@v4").is_none());
    assert!(ActionRef::parse("  @v4").is_none());
    assert!(ActionRef::parse("actions checkout@v4").is_none());
    assert!(ActionRef::parse("actions\tcheckout").is_none());
}

#[test]
fn is_local_needs_the_whole_marker() {
    assert!(ActionRef::parse("./a@v1").unwrap().is_local());
    assert!(ActionRef::parse("./@v1").unwrap().is_local());
    assert!(!ActionRef::parse(".@v1").unwrap().is_local());
    assert!(!ActionRef::parse("../a@v1").unwrap().is_local());
    assert!(!ActionRef::parse("a/./b@v1").unwrap().is_local());
}

#[test]
fn pinned_keeps_the_action_and_its_locator() {
    let action = ActionRef::parse("actions/cache@main").unwrap();
    let sha = "0123456789abcdef0123456789abcdef01234567".to_string();
    let pinned = PinnedAction::new(action.clone(), sha.clone());
    assert_eq!(pinned.action, action);
    assert_eq!(pinned.sha, sha);
    assert_eq!(pinned.original_ref, "main");
    assert_eq!(
        pinned.format_uses_line(),
        "actions/cache@0123456789abcdef0123456789abcdef01234567 # main"
    );
    let copy = pinned.clone();
    assert_eq!(copy.format_uses_line(), pinned.format_uses_line());
}
