use network2::topology::participant::{parse_count, parse_ipv4};
use network2::topology::{trim_end, Address, ParseError};
use network2::Participant;

fn lines(text: &[&str]) -> Vec<String> {
    text.iter().map(|l| l.to_string()).collect()
}

fn party(id: u32, octets: [u8; 4], port: u16) -> Participant {
    Participant { id, address: Address { octets, port } }
}

fn trim(line: &str) -> (String, String) {
    let mut buf = line.to_string();
    let rest = trim_end(&mut buf).to_string();
    (rest, buf)
}

#[test]
fn the_end_of_a_line_is_taken_off() {
    for (line, rest) in [
        ("abc\n", "abc"),
        ("abc\r\n", "abc"),
        ("abc", "abc"),
        ("abc\r", "abc\r"),
        ("abc\n\n", "abc\n"),
        ("abc\r\r\n", "abc\r"),
        ("abc\n\r", "abc\n\r"),
        ("\n", ""),
        ("\r\n", ""),
        ("", ""),
        (" 4 \n", " 4 "),
        ("10.0.0.1\r\n", "10.0.0.1"),
    ] {
        assert_eq!(trim(line), (rest.to_string(), rest.to_string()), "{line:?}");
    }
}

#[test]
fn parties_on_this_machine() {
    assert_eq!(Participant::from_default(0, 12367), Vec::new());
    assert_eq!(
        Participant::from_default(3, 12367),
        vec![
            party(0, [127, 0, 0, 1], 12367),
            party(1, [127, 0, 0, 1], 12368),
            party(2, [127, 0, 0, 1], 12369),
        ]
    );
    let all = Participant::from_default(65536, 0);
    assert_eq!(all.len(), 65536);
    assert_eq!(all[65535], party(65535, [127, 0, 0, 1], 65535));
    assert_eq!(Participant::from_default(1, 65535), vec![party(0, [127, 0, 0, 1], 65535)]);
}

#[test]
fn parties_off_a_text() {
    let expected = vec![party(0, [10, 0, 0, 1], 9000), party(1, [192, 168, 1, 20], 9001)];
    assert_eq!(
        Participant::from_lines(&lines(&["2\n", "10.0.0.1\n", "192.168.1.20\n"]), 9000),
        Ok(expected.clone())
    );
    // The last line need not end, lines may end as on other systems, and
    // what follows the parties is not read.
    assert_eq!(
        Participant::from_lines(&lines(&["2\r\n", "10.0.0.1\r\n", "192.168.1.20"]), 9000),
        Ok(expected.clone())
    );
    assert_eq!(
        Participant::from_lines(&lines(&["+2\n", "10.0.0.1\n", "192.168.1.20\n", "600 200\n"]), 9000),
        Ok(expected)
    );
    assert_eq!(Participant::from_lines(&lines(&["0\n"]), 9000), Ok(Vec::new()));
    assert_eq!(Participant::from_lines(&lines(&["0"]), 9000), Ok(Vec::new()));
    assert_eq!(
        Participant::from_lines(&lines(&["1\n", "0.0.0.0\n"]), 65535),
        Ok(vec![party(0, [0, 0, 0, 0], 65535)])
    );
}

#[test]
fn a_text_without_a_count() {
    for first in ["", "\n", "two\n", " 2\n", "2 \n", "-1\n", "2.0\n", "0x2\n", "+\n", "2\r\r\n", "١\n"] {
        assert_eq!(
            Participant::from_lines(&lines(&[first, "10.0.0.1\n", "10.0.0.2\n"]), 9000),
            Err(ParseError::Count),
            "{first:?}"
        );
    }
    assert_eq!(Participant::from_lines(&Vec::new(), 9000), Err(ParseError::Count));
}

#[test]
fn a_text_with_a_line_that_is_no_address() {
    assert_eq!(
        Participant::from_lines(&lines(&["2\n", "10.0.0.1\n"]), 9000),
        Err(ParseError::Address { index: 1 })
    );
    assert_eq!(
        Participant::from_lines(&lines(&["2\n", "localhost\n", "10.0.0.1\n"]), 9000),
        Err(ParseError::Address { index: 0 })
    );
    assert_eq!(
        Participant::from_lines(&lines(&["3\n", "10.0.0.1\n", "\n", "nothing\n"]), 9000),
        Err(ParseError::Address { index: 1 })
    );
    assert_eq!(
        Participant::from_lines(&lines(&["18446744073709551615\n", "10.0.0.1\n"]), 0),
        Err(ParseError::Address { index: 1 })
    );
}

#[test]
fn a_text_with_more_parties_than_ports() {
    assert_eq!(
        Participant::from_lines(&lines(&["2\n", "10.0.0.1\n", "10.0.0.2\n"]), 65535),
        Err(ParseError::Port { index: 1 })
    );
    assert_eq!(
        Participant::from_lines(&lines(&["3\n", "10.0.0.1\n", "10.0.0.2\n", "10.0.0.3\n"]), 65534),
        Err(ParseError::Port { index: 2 })
    );
    // The address is looked at before the port.
    assert_eq!(
        Participant::from_lines(&lines(&["2\n", "10.0.0.1\n", "10.0.0\n"]), 65535),
        Err(ParseError::Address { index: 1 })
    );
}

#[test]
fn counts() {
    assert_eq!(parse_count("0"), Some(0));
    assert_eq!(parse_count("7"), Some(7));
    assert_eq!(parse_count("+5"), Some(5));
    assert_eq!(parse_count("007"), Some(7));
    assert_eq!(parse_count("1024"), Some(1024));
    assert_eq!(parse_count("4294967295"), Some(4_294_967_295));
    assert_eq!(parse_count(&usize::MAX.to_string()), Some(usize::MAX));
    assert_eq!(parse_count(&format!("000{}", usize::MAX)), Some(usize::MAX));
    assert_eq!(parse_count("18446744073709551616"), None);
    assert_eq!(parse_count("99999999999999999999999"), None);
    for text in ["", "+", "-", "-0", "++1", "1+", "1 ", " 1", "1_000", "12a", "a12", "1.5", "٣", "1\n"] {
        assert_eq!(parse_count(text), None, "{text:?}");
        assert!(text.parse::<usize>().is_err());
    }
}

#[test]
fn addresses() {
    assert_eq!(parse_ipv4("127.0.0.1"), Some([127, 0, 0, 1]));
    assert_eq!(parse_ipv4("0.0.0.0"), Some([0, 0, 0, 0]));
    assert_eq!(parse_ipv4("255.255.255.255"), Some([255, 255, 255, 255]));
    assert_eq!(parse_ipv4("1.22.203.4"), Some([1, 22, 203, 4]));
    assert_eq!(parse_ipv4("192.168.0.10"), Some([192, 168, 0, 10]));
    for text in [
        "",
        ".",
        "...",
        "1.2.3",
        "1.2.3.",
        ".1.2.3",
        "1.2.3.4.",
        "1.2.3.4.5",
        "1..2.3",
        "256.0.0.1",
        "1.2.3.256",
        "1.2.3.999",
        "1000.2.3.4",
        "01.2.3.4",
        "1.2.3.04",
        "1.2.3.00",
        "1.2.3.4 ",
        " 1.2.3.4",
        "1.2.3.+4",
        "1.2.3.-4",
        "1,2,3,4",
        "a.b.c.d",
        "1.2.3.4\n",
        "localhost",
        "::1",
        "1.2.3.٤",
    ] {
        assert_eq!(parse_ipv4(text), None, "{text:?}");
    }
}
