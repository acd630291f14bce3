use minimal_object_notation::{Error, MiniON};

#[test]
fn test_parse_manually() {
    let data = b"greeting|13~Hello, world!name|6~miniON";

    let mut incr: usize = 0;

    match MiniON::parse_name(data, &mut incr) {
        Ok(name) => {
            assert_eq!("greeting", name);
        }
        Err(e) => {
            panic!("{}", e.to_string());
        }
    }

    match MiniON::parse_length(data, &mut incr, "greeting") {
        Ok(length) => {
            assert_eq!(13, length);
        }
        Err(e) => {
            panic!("{}", e.to_string());
        }
    }

    match MiniON::parse_content(data, &mut incr, "greeting", 13) {
        Ok(content) => {
            assert_eq!("Hello, world!", content);
        }
        Err(e) => {
            panic!("{}", e.to_string());
        }
    }

    match MiniON::parse_name(data, &mut incr) {
        Ok(name) => {
            assert_eq!("name", name);
        }
        Err(e) => {
            panic!("{}", e.to_string());
        }
    }

    match MiniON::parse_length(data, &mut incr, "name") {
        Ok(length) => {
            assert_eq!(6, length);
        }
        Err(e) => {
            panic!("{}", e.to_string());
        }
    }

    match MiniON::parse_content(data, &mut incr, "name", 6) {
        Ok(content) => {
            assert_eq!("miniON", content);
        }
        Err(e) => {
            panic!("{}", e.to_string());
        }
    }
}

#[test]
fn test_parse_one() {
    let data = b"greeting|13~Hello, world!";

    let mut incr: usize = 0;

    match MiniON::parse_one(data, &mut incr) {
        Ok(minion) => {
            assert_eq!("greeting", minion.name);

            match minion.content {
                Some(content) => {
                    assert_eq!("Hello, world!", content);
                }
                None => {
                    panic!("No content!");
                }
            }
        }
        Err(e) => {
            panic!("{}", e.to_string());
        }
    }
}

#[test]
fn test_parse_all() {
    let data = b"title|12~grocery listdate|10~04/08/2020grocery list|21~1.|6~cheese2.|5~bread";

    match MiniON::parse_all(data) {
        Ok(minions) => {
            assert_eq!(3, minions.len());

            assert_eq!("title", minions[0].name);

            match &minions[0].content {
                Some(content) => {
                    assert_eq!("grocery list", content);
                }
                None => {
                    panic!("Expected content!");
                }
            }

            assert_eq!("date", minions[1].name);

            match &minions[1].content {
                Some(content) => {
                    assert_eq!("04/08/2020", content);
                }
                None => {
                    panic!("Expected content!");
                }
            }

            assert_eq!("grocery list", minions[2].name);

            match &minions[2].content {
                Some(content) => {
                    assert_eq!("1.|6~cheese2.|5~bread", content);

                    match MiniON::parse_all(content.as_bytes()) {
                        Ok(minions) => {
                            assert_eq!(2, minions.len());

                            assert_eq!("1.", minions[0].name);

                            match &minions[0].content {
                                Some(content) => {
                                    assert_eq!("cheese", content);
                                }
                                None => {
                                    panic!("Expected content!");
                                }
                            }

                            assert_eq!("2.", minions[1].name);

                            match &minions[1].content {
                                Some(content) => {
                                    assert_eq!("bread", content);
                                }
                                None => {
                                    panic!("Expected content!");
                                }
                            }
                        }
                        Err(e) => {
                            panic!("{}", e.to_string());
                        }
                    }
                }
                None => {
                    panic!("Expected content!");
                }
            }
        }
        Err(e) => {
            panic!("{}", e.to_string());
        }
    }
}

#[test]
fn parse_one_zero_length_record() {
    let data = b"empty|0~";
    let mut incr: usize = 0;
    match MiniON::parse_one(data, &mut incr) {
        Ok(minion) => {
            assert_eq!("empty", minion.name);
            assert_eq!(0, minion.length);
            assert!(minion.content.is_none());
            assert_eq!("empty|0~", minion.as_string());
        }
        Err(e) => {
            panic!("{}", e.to_string());
        }
    }
    assert_eq!(data.len(), incr);
}

#[test]
fn parse_all_zero_length_records() {
    let data = b"a|0~b|4~....c|0~";
    let minions = match MiniON::parse_all(data) {
        Ok(m) => m,
        Err(e) => panic!("{}", e.to_string()),
    };
    assert_eq!(3, minions.len());
    assert_eq!("a", minions[0].name);
    assert!(minions[0].content.is_none());
    assert_eq!("b", minions[1].name);
    assert_eq!(Some("....".to_string()), minions[1].content);
    assert_eq!("c", minions[2].name);
    assert!(minions[2].content.is_none());
}

#[test]
fn parse_all_empty_buffer() {
    match MiniON::parse_all(b"") {
        Ok(minions) => {
            assert_eq!(0, minions.len());
        }
        Err(e) => {
            panic!("{}", e.to_string());
        }
    }
}

#[test]
fn round_trip_through_bytes() {
    let mut minion = MiniON::new("greeting".to_string());
    minion.set_content("Hello, world!".to_string());
    let text = minion.as_string();
    let mut incr: usize = 0;
    let back = match MiniON::parse_one(text.as_bytes(), &mut incr) {
        Ok(m) => m,
        Err(e) => panic!("{}", e.to_string()),
    };
    assert_eq!(minion.name, back.name);
    assert_eq!(minion.length, back.length);
    assert_eq!(minion.content, back.content);
    assert_eq!(text.len(), incr);
}

#[test]
fn truncated_content_is_incomplete() {
    let mut incr: usize = 0;
    match MiniON::parse_one(b"x|5~ab", &mut incr) {
        Ok(_) => panic!("expected an error"),
        Err(Error::Incomplete(info)) => {
            assert_eq!("The object (name: x) is incomplete. Bytes missing = 3 .", info);
        }
        Err(_) => panic!("expected Incomplete"),
    }
}

#[test]
fn missing_length_delimiter_is_no_structure() {
    let mut incr: usize = 0;
    match MiniON::parse_one(b"x|5", &mut incr) {
        Err(Error::NoStructure) => {}
        _ => panic!("expected NoStructure"),
    }
}

#[test]
fn name_delimiter_last_is_incomplete() {
    let mut incr: usize = 0;
    match MiniON::parse_one(b"x|", &mut incr) {
        Err(Error::Incomplete(info)) => {
            assert_eq!("No more data after name (x) field at position 1.", info);
        }
        _ => panic!("expected Incomplete"),
    }
}

#[test]
fn non_numeric_length_is_bad_structure() {
    let mut incr: usize = 0;
    match MiniON::parse_one(b"x|abc~", &mut incr) {
        Err(Error::BadStructure(info)) => {
            assert_eq!("Could not parse the length field. Contains: abc", info);
        }
        _ => panic!("expected BadStructure"),
    }
}

#[test]
fn signed_length_is_bad_structure() {
    let mut incr: usize = 0;
    match MiniON::parse_one(b"x|+5~abcde", &mut incr) {
        Err(Error::BadStructure(_)) => {}
        _ => panic!("expected BadStructure"),
    }
}

#[test]
fn huge_length_is_bad_structure() {
    let mut incr: usize = 0;
    match MiniON::parse_one(b"x|99999999999999999999999~", &mut incr) {
        Err(Error::BadStructure(info)) => {
            assert_eq!(
                "Could not parse the length field. Contains: 99999999999999999999999",
                info
            );
        }
        _ => panic!("expected BadStructure"),
    }
}

#[test]
fn length_with_leading_zeros_is_accepted() {
    let mut incr: usize = 0;
    match MiniON::parse_one(b"x|007~content", &mut incr) {
        Ok(minion) => {
            assert_eq!(7, minion.length);
            assert_eq!(Some("content".to_string()), minion.content);
        }
        Err(e) => panic!("{}", e.to_string()),
    }
}

#[test]
fn nonzero_length_at_buffer_end_is_incomplete() {
    let mut incr: usize = 0;
    match MiniON::parse_one(b"x|5~", &mut incr) {
        Err(Error::Incomplete(info)) => {
            assert_eq!("No more data after length (name: x) field at position 3.", info);
        }
        _ => panic!("expected Incomplete"),
    }
}

#[test]
fn zero_length_content_is_no_content() {
    let mut incr: usize = 4;
    match MiniON::parse_content(b"x|0~rest", &mut incr, "x", 0) {
        Err(Error::NoContent) => {}
        _ => panic!("expected NoContent"),
    }
}

#[test]
fn leftover_bytes_fail_parse_all() {
    match MiniON::parse_all(b"a|3~abcx") {
        Ok(_) => panic!("expected an error"),
        Err(_) => {}
    }
}

#[test]
fn error_rendering() {
    assert_eq!(
        "Error: No structure: The data does not follow the mON structure.",
        Error::NoStructure.to_string()
    );
    assert_eq!(
        "Error: Content of length 0 cannot be parsed.",
        Error::NoContent.to_string()
    );
    assert_eq!(
        "Error: Incomplete data: detail",
        Error::Incomplete("detail".to_string()).to_string()
    );
    assert_eq!(
        "Error: Bad data: detail",
        Error::BadStructure("detail".to_string()).to_string()
    );
}

#[test]
fn name_may_contain_length_delimiter() {
    let mut incr: usize = 0;
    match MiniON::parse_one(b"a~b|3~xyz", &mut incr) {
        Ok(minion) => {
            assert_eq!("a~b", minion.name);
            assert_eq!(Some("xyz".to_string()), minion.content);
        }
        Err(e) => panic!("{}", e.to_string()),
    }
}

#[test]
fn nested_records_decode_on_request() {
    let data = b"container|60~object|20~____________________object|20~____________________";
    let minions = match MiniON::parse_all(data) {
        Ok(m) => m,
        Err(e) => panic!("{}", e.to_string()),
    };
    assert_eq!(1, minions.len());
    assert_eq!("container", minions[0].name);
    let content = minions[0].content.as_ref().expect("Expected content!");
    let inner = match MiniON::parse_all(content.as_bytes()) {
        Ok(m) => m,
        Err(e) => panic!("{}", e.to_string()),
    };
    assert_eq!(2, inner.len());
    assert_eq!("object", inner[0].name);
    assert_eq!(Some("____________________".to_string()), inner[0].content);
    assert_eq!("object", inner[1].name);
    assert_eq!(Some("____________________".to_string()), inner[1].content);
}

#[test]
fn parse_all_stops_exactly_at_buffer_end() {
    let data = b"first|4~ONE,second|4~TWO,third|6~THREE,container|29~name|5~NAME,content|7~CONTENT";
    let minions = match MiniON::parse_all(data) {
        Ok(m) => m,
        Err(e) => panic!("{}", e.to_string()),
    };
    assert_eq!(4, minions.len());
    assert_eq!("first", minions[0].name);
    assert_eq!("second", minions[1].name);
    assert_eq!("third", minions[2].name);
    assert_eq!("container", minions[3].name);
    assert_eq!(Some("ONE,".to_string()), minions[0].content);
    assert_eq!(
        Some("name|5~NAME,content|7~CONTENT".to_string()),
        minions[3].content
    );
}
