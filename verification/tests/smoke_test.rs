use protohackers::smoke_test::echo_reply;

#[test]
fn test() {
    let sent = b"Hello world!";
    let reply = echo_reply(sent);
    assert_eq!(&reply, &b"Hello world!");
}

#[test]
fn echo_empty_and_binary() {
    assert_eq!(echo_reply(&[]), Vec::<u8>::new());
    let data: Vec<u8> = (0..=255u8).collect();
    assert_eq!(echo_reply(&data), data);
}
