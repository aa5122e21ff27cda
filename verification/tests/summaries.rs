use reddoc::action::{
    command_failure_streams, command_line, command_nodes, custom_input, handle_general_custom,
    Action, CustomInput,
};
use reddoc::consequences::Consequence;
use reddoc::event::Event;
use reddoc::node::{Category, KnownCommnad};
use reddoc::text::summarize_custom;

#[test]
fn summary_of_short_text() {
    let a = Action::Custom("  scanned the network \n".to_string());
    assert_eq!(a.to_string(), "custom: scanned the network");
}

#[test]
fn summary_cuts_at_line_break() {
    let e = Event::Custom("first line\nsecond line".to_string());
    assert_eq!(e.to_string(), "custom: first line...");
}

#[test]
fn summary_cuts_at_max_bytes() {
    let text = "a".repeat(70);
    let c = Consequence::Custom(text);
    assert_eq!(c.to_string(), format!("custom: {}...", "a".repeat(64)));
    // exactly 64 bytes: nothing cut
    assert_eq!(summarize_custom(&"b".repeat(64)), format!("custom: {}", "b".repeat(64)));
}

#[test]
fn summary_counts_bytes_not_characters() {
    // 32 two-byte characters are 64 bytes, then more text
    let text = format!("{}tail", "é".repeat(32));
    assert_eq!(summarize_custom(&text), format!("custom: {}...", "é".repeat(32)));
}

#[test]
fn category_summaries() {
    let a = Category::Action(Action::Custom("x".to_string()));
    assert_eq!(a.to_string(), "Action custom: x");
    let c = Category::Consequence(Consequence::Custom("y".to_string()));
    assert_eq!(c.to_string(), "Consequence: custom: y");
    let e = Category::Event(Event::Custom("z".to_string()));
    assert_eq!(e.to_string(), "Event: custom: z");
    let k = Action::KnownCommnad(KnownCommnad::NoCommand);
    assert_eq!(k, Action::KnownCommnad(KnownCommnad::NoCommand));
}

#[test]
fn general_custom_joins_argument_and_stdin() {
    assert_eq!(handle_general_custom(Some("arg"), "input"), "arg\n\ninput");
    assert_eq!(custom_input(Some("arg"), "input"), CustomInput::Both);
    assert_eq!(handle_general_custom(Some("arg"), "  \n"), "arg");
    assert_eq!(custom_input(Some("arg"), " "), CustomInput::Argument);
    assert_eq!(handle_general_custom(Some("  "), "input"), "input");
    assert_eq!(handle_general_custom(None, "input"), "input");
    assert_eq!(custom_input(None, "input"), CustomInput::Stdin);
    assert_eq!(handle_general_custom(None, ""), "");
    assert_eq!(custom_input(Some(" "), "\t"), CustomInput::Neither);
}

#[test]
fn custom_nodes_only_for_text() {
    assert!(reddoc::action::handle_subcommand_custom(None, "  ").is_none());
    let n = reddoc::action::handle_subcommand_custom(Some("did it"), "").unwrap();
    assert_eq!(n.category, Category::Action(Action::Custom("did it".to_string())));
    let n = reddoc::event::handle_subcommand_custom(None, "seen").unwrap();
    assert_eq!(n.category, Category::Event(Event::Custom("seen".to_string())));
    let v = reddoc::consequences::handle_subcommand_custom(Some("a"), "b");
    assert_eq!(v.len(), 1);
    assert_eq!(v[0].category, Category::Consequence(Consequence::Custom("a\n\nb".to_string())));
    assert!(reddoc::consequences::handle_subcommand_custom(None, "").is_empty());
}

#[test]
fn command_line_and_nodes() {
    let args = vec!["ls".to_string(), "-la".to_string(), "/tmp".to_string()];
    assert_eq!(command_line(&args), "ls -la /tmp");
    assert_eq!(command_line(&Vec::new()), "");
    let (a, c) = command_nodes("ls -la", "out", "err");
    assert_eq!(a.category, Category::Action(Action::Command("ls -la".to_string())));
    assert_eq!(
        c.category,
        Category::Consequence(Consequence::Command("out".to_string(), "err".to_string()))
    );
}

#[test]
fn failure_streams_shown() {
    assert_eq!(command_failure_streams("", " "), (true, true));
    assert_eq!(command_failure_streams("", "out"), (true, false));
    assert_eq!(command_failure_streams("bad", ""), (false, true));
    assert_eq!(command_failure_streams("bad", "out"), (false, true));
}
