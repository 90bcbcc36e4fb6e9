use irc_message::next_segment;
use irc_message::next_token;
use irc_message::IrcMessage;
use irc_message::ParseError;

#[test]
fn segment_collapses_separating_spaces() {
    assert_eq!(next_segment("a  b"), Some(("a", "b")));
    assert_eq!(next_segment("alpha beta gamma"), Some(("alpha", "beta gamma")));
    assert_eq!(next_segment("token   "), Some(("token", "")));
    assert_eq!(next_segment("nospace"), None);
    assert_eq!(next_segment(""), None);
}

#[test]
fn token_falls_back_to_whole_string() {
    assert_eq!(next_token("a  b"), ("a", "b"));
    assert_eq!(next_token("nospace"), ("nospace", ""));
    assert_eq!(next_token(""), ("", ""));
}

#[test]
fn bare_command_token() {
    let topic = IrcMessage::parse_ref("PING").unwrap();
    assert_eq!(topic.tags.len(), 0);
    assert_eq!(topic.prefix, None);
    assert_eq!(topic.command, Some("PING"));
    assert_eq!(topic.params.len(), 0);
    assert_eq!(topic.raw, "PING");
}

#[test]
fn owned_and_borrowed_agree() {
    let line = "@k=v :pre CMD a b :c d";
    let borrowed = IrcMessage::parse_ref(line).unwrap();
    let owned = IrcMessage::parse_own(line).unwrap();
    assert_eq!(owned.raw, line);
    assert_eq!(borrowed.raw, line);
    assert_eq!(owned.tags.len(), borrowed.tags.len());
    assert_eq!(owned.tags[0].0, "k");
    assert_eq!(borrowed.tags[0].0, "k");
    assert_eq!(owned.prefix.as_deref(), borrowed.prefix);
    assert_eq!(owned.command.as_deref(), borrowed.command);
    assert_eq!(owned.params, vec![String::from("a"), String::from("b"), String::from("c d")]);
    assert_eq!(borrowed.params, vec!["a", "b", "c d"]);
}

#[test]
fn trailing_remainder_taken_verbatim() {
    let topic = IrcMessage::parse_ref(":test CMD mid :a b :c  d").unwrap();
    assert_eq!(topic.params, vec!["mid", "a b :c  d"]);
}

#[test]
fn valueless_tag_distinct_from_assigned() {
    let topic = IrcMessage::parse_own("@a;b=;c=true CMD").unwrap();
    assert_eq!(topic.tag_value("a"), Some(None));
    assert_eq!(topic.tag_value("b"), Some(Some(String::new())));
    assert_eq!(topic.tag_value("c"), Some(Some(String::from("true"))));
    assert_ne!(topic.tag_value("a"), topic.tag_value("c"));
    assert_ne!(topic.tag_value("a"), topic.tag_value("b"));
    assert_eq!(topic.tag_value("missing"), None);
    assert_eq!(topic.tag_value_or_true("a"), Some(String::from("true")));
}

#[test]
fn tag_value_may_contain_equals() {
    let topic = IrcMessage::parse_own("@k=a=b CMD").unwrap();
    assert_eq!(topic.tag_value("k"), Some(Some(String::from("a=b"))));
}

#[test]
fn duplicate_tag_key_last_wins() {
    let topic = IrcMessage::parse_own("@a=1;a=2 CMD").unwrap();
    assert_eq!(topic.tags.len(), 1);
    assert_eq!(topic.tag_value("a"), Some(Some(String::from("2"))));
}

#[test]
fn empty_tag_tokens_are_dropped() {
    let topic = IrcMessage::parse_ref("@best=super;single; :test FOO").unwrap();
    assert_eq!(topic.tags, vec![("best", Some("super")), ("single", None)]);
    assert_eq!(topic.prefix, Some("test"));
    assert_eq!(topic.command, Some("FOO"));
}

#[test]
fn empty_input_is_an_error() {
    assert_eq!(IrcMessage::parse_ref(""), Err(ParseError::EmptyInput));
    assert_eq!(IrcMessage::parse_own("").unwrap_err(), ParseError::EmptyInput);
}

#[test]
fn missing_command_is_an_error() {
    assert_eq!(IrcMessage::parse_ref("@tag"), Err(ParseError::MissingCommand));
    assert_eq!(IrcMessage::parse_ref(":prefix"), Err(ParseError::MissingCommand));
    assert_eq!(IrcMessage::parse_ref(":prefix "), Err(ParseError::MissingCommand));
    assert_eq!(IrcMessage::parse_ref("@k=v "), Err(ParseError::MissingCommand));
    assert_eq!(IrcMessage::parse_ref("   "), Err(ParseError::MissingCommand));
    assert_eq!(IrcMessage::parse_ref(" FOO"), Err(ParseError::MissingCommand));
}

#[test]
fn malformed_tag_section_is_an_error() {
    assert_eq!(IrcMessage::parse_ref("@ FOO"), Err(ParseError::MalformedTagSection));
    assert_eq!(IrcMessage::parse_ref("@; FOO"), Err(ParseError::MalformedTagSection));
    assert_eq!(IrcMessage::parse_ref("@=v FOO"), Err(ParseError::MalformedTagSection));
    assert_eq!(IrcMessage::parse_ref("@a;=v FOO"), Err(ParseError::MalformedTagSection));
}

#[test]
fn format_full_message() {
    let m = IrcMessage {
        raw: String::new(),
        tags: vec![
            (String::from("best"), Some(String::from("super"))),
            (String::from("single"), None),
        ],
        prefix: Some(String::from("nick!user@host")),
        command: Some(String::from("PRIVMSG")),
        params: vec![String::from("#chan"), String::from("hello world")],
    };
    assert_eq!(m.format(), "@best=super;single; :nick!user@host PRIVMSG #chan :hello world");
}

#[test]
fn format_command_only() {
    let m = IrcMessage {
        raw: String::new(),
        tags: vec![],
        prefix: None,
        command: Some(String::from("PING")),
        params: vec![],
    };
    assert_eq!(m.format(), "PING");
}

#[test]
fn format_bare_params_single_spaces() {
    let m = IrcMessage {
        raw: String::new(),
        tags: vec![],
        prefix: None,
        command: Some(String::from("FOO")),
        params: vec![String::from("bar"), String::from("baz"), String::from("quux")],
    };
    assert_eq!(m.format(), "FOO bar baz quux");
}

#[test]
fn format_final_param_starting_with_colon() {
    let m = IrcMessage {
        raw: String::new(),
        tags: vec![],
        prefix: None,
        command: Some(String::from("CMD")),
        params: vec![String::from("x"), String::from(":y")],
    };
    assert_eq!(m.format(), "CMD x ::y");
}

#[test]
fn format_space_in_middle_param_ends_the_list() {
    let m = IrcMessage {
        raw: String::new(),
        tags: vec![],
        prefix: None,
        command: Some(String::from("CMD")),
        params: vec![String::from("a b"), String::from("c")],
    };
    assert_eq!(m.format(), "CMD :a b");
}

#[test]
fn round_trip_full_message() {
    let m = IrcMessage {
        raw: String::new(),
        tags: vec![
            (String::from("best"), Some(String::from("super"))),
            (String::from("single"), None),
            (String::from("empty"), Some(String::new())),
        ],
        prefix: Some(String::from("nick!user@host")),
        command: Some(String::from("PRIVMSG")),
        params: vec![String::from("#chan"), String::from("This is a test")],
    };
    let back = IrcMessage::parse_own(&m.format()).unwrap();
    assert_eq!(back.tags, m.tags);
    assert_eq!(back.prefix, m.prefix);
    assert_eq!(back.command, m.command);
    assert_eq!(back.params, m.params);
}

#[test]
fn round_trip_without_trailing_param() {
    let m = IrcMessage {
        raw: String::new(),
        tags: vec![],
        prefix: Some(String::from("server.example")),
        command: Some(String::from("005")),
        params: vec![String::from("nick"), String::from("CHANTYPES=#")],
    };
    let back = IrcMessage::parse_own(&m.format()).unwrap();
    assert_eq!(back.tags, m.tags);
    assert_eq!(back.prefix, m.prefix);
    assert_eq!(back.command, m.command);
    assert_eq!(back.params, m.params);
}

#[test]
fn round_trip_command_starting_with_colon_behind_prefix() {
    let m = IrcMessage {
        raw: String::new(),
        tags: vec![],
        prefix: Some(String::from("pre")),
        command: Some(String::from(":odd")),
        params: vec![],
    };
    assert_eq!(m.format(), ":pre :odd");
    let back = IrcMessage::parse_own(&m.format()).unwrap();
    assert_eq!(back.prefix, m.prefix);
    assert_eq!(back.command, m.command);
    assert_eq!(back.params, m.params);
}

#[test]
fn raw_keeps_the_input_verbatim() {
    let line = ":test    PRIVMSG  foo   :bar";
    let topic = IrcMessage::parse_own(line).unwrap();
    assert_eq!(topic.raw, line);
    assert_eq!(IrcMessage::parse_ref(line).unwrap().raw, line);
}
