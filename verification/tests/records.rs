use minimal_object_notation::MiniON;

#[test]
fn test_create_minion() {
    let mut minion = MiniON::new("greeting".to_string());

    minion.set_content("Hello, world!".to_string());

    assert_eq!("greeting|13~Hello, world!", minion.as_string());
}

#[test]
fn test_multi_minion() {
    let mut minion_container = MiniON::new("container".to_string());

    let mut days_of_the_week = MiniON::new("object".to_string());

    days_of_the_week.set_content("____________________".to_string());

    let mut pairs_of_socks = MiniON::new("object".to_string());

    pairs_of_socks.set_content("____________________".to_string());

    let mut content = days_of_the_week.as_string();
    content.push_str(&pairs_of_socks.as_string());

    minion_container.set_content(content);

    assert_eq!(
        "container|60~object|20~____________________object|20~____________________",
        minion_container.as_string()
    );
}

#[test]
fn new_record_has_no_content() {
    let minion = MiniON::new("empty".to_string());
    assert_eq!("empty", minion.name);
    assert_eq!(0, minion.length);
    assert!(minion.content.is_none());
    assert_eq!("empty|0~", minion.as_string());
}

#[test]
fn set_content_recomputes_length() {
    let mut minion = MiniON::new("n".to_string());
    minion.set_content("abc".to_string());
    assert_eq!(3, minion.length);
    assert_eq!(Some("abc".to_string()), minion.content);
    minion.set_content("abcde".to_string());
    assert_eq!(5, minion.length);
    assert_eq!(Some("abcde".to_string()), minion.content);
}

#[test]
fn set_empty_content_leaves_none() {
    let mut minion = MiniON::new("n".to_string());
    minion.set_content("abc".to_string());
    minion.set_content(String::new());
    assert_eq!(0, minion.length);
    assert!(minion.content.is_none());
    assert_eq!("n|0~", minion.as_string());
}

#[test]
fn serialize_long_length() {
    let mut minion = MiniON::new("big".to_string());
    let payload = "x".repeat(1234);
    minion.set_content(payload.clone());
    let text = minion.as_string();
    assert_eq!(format!("big|1234~{}", payload), text);
}
