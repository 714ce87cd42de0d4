use protohackers::budget_chat::{greeting, is_valid_name, render_event, requested_name, ChatEvent, ChatRoom};

#[test]
fn names() {
    assert_eq!(requested_name("alice\n"), Some("alice".to_string()));
    assert_eq!(requested_name("Bob42  \r\n"), Some("Bob42".to_string()));
    assert_eq!(requested_name("bad name\n"), None);
    assert_eq!(requested_name("\n"), None);
    assert_eq!(requested_name(""), None);
    assert_eq!(requested_name(" alice\n"), None);
    assert_eq!(requested_name("ålice\n"), None);
    assert_eq!(requested_name("bob\u{3000}\u{85}\t\n"), Some("bob".to_string()));
    assert_eq!(requested_name("bob\u{200b}\n"), None);
    assert!(is_valid_name("abcXYZ019"));
    assert!(!is_valid_name("abc_"));
}

#[test]
fn greetings() {
    assert_eq!(greeting(&vec![]), "* Greetings. You're the first one here.\n");
    assert_eq!(
        greeting(&vec!["bob".to_string()]),
        "* Greetings. Who's here: bob\n"
    );
    assert_eq!(
        greeting(&vec!["bob".to_string(), "charlie".to_string(), "dave".to_string()]),
        "* Greetings. Who's here: bob, charlie, dave\n"
    );
}

#[test]
fn events() {
    let me = "alice".to_string();
    assert_eq!(
        render_event(&ChatEvent::Join { name: "bob".to_string() }, &me),
        Some("* bob has joined budget chat\n".to_string())
    );
    assert_eq!(
        render_event(&ChatEvent::Leave { name: "bob".to_string() }, &me),
        Some("* bob has left budget chat\n".to_string())
    );
    assert_eq!(
        render_event(
            &ChatEvent::Message { name: "bob".to_string(), text: "hi".to_string() },
            &me
        ),
        Some("[bob] hi\n".to_string())
    );
    assert_eq!(
        render_event(
            &ChatEvent::Message { name: "alice".to_string(), text: "hi".to_string() },
            &me
        ),
        None
    );
}

#[test]
fn room_membership() {
    let mut room = ChatRoom::new();
    let bob = "bob".to_string();
    let carol = "carol".to_string();
    assert!(room.join(&bob).is_empty());
    assert_eq!(room.join(&carol), vec!["bob".to_string()]);
    let mut present = room.members();
    present.sort();
    assert_eq!(present, vec!["bob".to_string(), "carol".to_string()]);
    room.leave(&bob);
    assert_eq!(room.members(), vec!["carol".to_string()]);
    room.leave(&bob);
    assert_eq!(room.members(), vec!["carol".to_string()]);
    assert_eq!(room.join(&carol), vec!["carol".to_string()]);
    assert_eq!(room.members(), vec!["carol".to_string()]);
}

#[test]
fn trailing_white_space_is_trimmed() {
    let white = [
        '\u{9}', '\u{a}', '\u{b}', '\u{c}', '\u{d}', ' ', '\u{85}', '\u{a0}', '\u{1680}',
        '\u{2000}', '\u{2005}', '\u{200a}', '\u{2028}', '\u{2029}', '\u{202f}', '\u{205f}',
        '\u{3000}',
    ];
    for c in white {
        assert_eq!(requested_name(&format!("zed{}{}", c, c)), Some("zed".to_string()));
    }
    for c in ['\u{200b}', '\u{180e}', '\u{feff}', '_'] {
        assert_eq!(requested_name(&format!("zed{}", c)), None);
    }
}
