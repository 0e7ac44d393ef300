use funny_feed::form::{hex_value, parse_form, percent_decode, percent_decode_bytes};
use funny_feed::graphics::{encode_bit_image, Bitmap};
use funny_feed::job::{text_job, Align, PrintOp, IMAGE_BAND_FEED, IMAGE_MODE};
use funny_feed::pbm::parse_pbm;
use funny_feed::menu::{format_item, menu_job, wrap, MenuItem, MenuResult, RawData, Restaurant, WIDTH};
use funny_feed::network::{format_interfaces, group_interfaces, Interface, InterfaceAddr};
use funny_feed::server::{
    banner_lines, header_value, is_success_status, reply_body, reply_status, route, sender_label, vote_reply, vote_route,
    BannerError, Method, Page, Route, VoteRoute,
};
use funny_feed::strings::{split_lines, split_whitespace, trim_chars};
use funny_feed::vote::{vote_job, Outcome};

fn line(s: &str) -> PrintOp {
    PrintOp::WriteLine(s.to_string())
}

fn chars(s: &str) -> Vec<char> {
    s.chars().collect()
}

// ---------------------------------------------------------------- bitmap

#[test]
fn new_bitmap_is_blank() {
    let b = Bitmap::new(10, 7);
    assert_eq!(b.width(), 10);
    assert_eq!(b.height(), 7);
    for y in 0..7 {
        for x in 0..10 {
            assert!(!b.get(x, y));
        }
    }
}

#[test]
fn set_then_get_reads_black_and_keeps_others() {
    let mut b = Bitmap::new(5, 4);
    b.set(3, 2);
    assert!(b.get(3, 2));
    assert!(!b.get(2, 3));
    assert!(!b.get(2, 2));
    assert!(!b.get(3, 1));
    b.set(3, 2);
    assert!(b.get(3, 2));
}

#[test]
fn set_out_of_range_is_ignored() {
    let mut b = Bitmap::new(3, 3);
    b.set(-1, 0);
    b.set(0, -1);
    b.set(3, 0);
    b.set(0, 3);
    b.set(isize::MIN, isize::MAX);
    for y in 0..3 {
        for x in 0..3 {
            assert!(!b.get(x, y));
        }
    }
}

#[test]
fn get_out_of_range_reads_white() {
    let mut b = Bitmap::new(2, 2);
    b.set(0, 0);
    b.set(1, 1);
    assert!(!b.get(2, 0));
    assert!(!b.get(0, 2));
    assert!(!b.get(usize::MAX, usize::MAX));
}

#[test]
fn empty_bitmap_encodes_to_nothing() {
    let b = Bitmap::new(0, 0);
    assert_eq!(encode_bit_image(&b, 0), Vec::<u8>::new());
    let b = Bitmap::new(4, 0);
    assert_eq!(encode_bit_image(&b, 1), Vec::<u8>::new());
}

#[test]
fn encode_pads_height_to_whole_bands() {
    let mut b = Bitmap::new(2, 9);
    b.set(0, 0);
    b.set(1, 8);
    let out = encode_bit_image(&b, 1);
    assert_eq!(
        out,
        vec![
            0x1B, b'*', 1, 2, 0, 0x80, 0x00, 0x0A, //
            0x1B, b'*', 1, 2, 0, 0x00, 0x80, 0x0A,
        ]
    );
}

#[test]
fn encode_bit_order_msb_is_top_pin() {
    let mut b = Bitmap::new(1, 8);
    b.set(0, 7);
    assert_eq!(encode_bit_image(&b, 0), vec![0x1B, b'*', 0, 1, 0, 0x01, 0x0A]);
    let mut b = Bitmap::new(1, 8);
    for y in 0..8 {
        b.set(0, y);
    }
    assert_eq!(encode_bit_image(&b, 0), vec![0x1B, b'*', 0, 1, 0, 0xFF, 0x0A]);
    let mut b = Bitmap::new(1, 8);
    b.set(0, 1);
    b.set(0, 6);
    assert_eq!(encode_bit_image(&b, 0), vec![0x1B, b'*', 0, 1, 0, 0b0100_0010, 0x0A]);
}

#[test]
fn encode_width_header_little_endian() {
    let b = Bitmap::new(300, 8);
    let out = encode_bit_image(&b, 0);
    assert_eq!(out.len(), 300 + 6);
    assert_eq!(&out[..5], &[0x1B, b'*', 0, 44, 1]);
    assert!(out[5..305].iter().all(|&d| d == 0));
    assert_eq!(out[305], 0x0A);
}

#[test]
fn encode_length_is_bands_times_width_plus_six() {
    let b = Bitmap::new(192, 96);
    assert_eq!(encode_bit_image(&b, 0).len(), 12 * (192 + 6));
    let b = Bitmap::new(5, 17);
    assert_eq!(encode_bit_image(&b, 0).len(), 3 * (5 + 6));
}

#[test]
fn encode_every_dot_recoverable() {
    let (w, h) = (7usize, 13usize);
    let mut b = Bitmap::new(w, h);
    for y in 0..h {
        for x in 0..w {
            if (x * 3 + y * 5) % 4 == 0 {
                b.set(x as isize, y as isize);
            }
        }
    }
    let out = encode_bit_image(&b, 0);
    for y in 0..16 {
        for x in 0..w {
            let byte = out[(y / 8) * (w + 6) + 5 + x];
            let bit = (byte >> (7 - y % 8)) & 1 == 1;
            assert_eq!(bit, b.get(x, y));
        }
    }
}

// ---------------------------------------------------------------- text helpers

#[test]
fn split_whitespace_words() {
    let ws = split_whitespace(&chars("  hello \t wide\u{3000}world\n"));
    assert_eq!(ws, vec![chars("hello"), chars("wide"), chars("world")]);
    assert!(split_whitespace(&chars(" \n ")).is_empty());
}

#[test]
fn split_lines_like_str_lines() {
    for text in ["", "a", "a\n", "a\nb", "a\r\nb\r\n", "\n", "a\n\nb", "baz\r", "x\r\r\n"] {
        let expected: Vec<Vec<char>> = text.lines().map(chars).collect();
        assert_eq!(split_lines(&chars(text)), expected, "lines of {text:?}");
    }
}

#[test]
fn trim_like_str_trim() {
    for text in ["", "  ", " a b ", "\u{A0}x\u{2009}", "abc", "\t\r\nq\n"] {
        assert_eq!(trim_chars(&chars(text)), chars(text.trim()));
    }
}

// ---------------------------------------------------------------- menu

#[test]
fn wrap_greedy_lines() {
    assert_eq!(
        wrap("the quick brown fox jumps over the lazy dog", 10),
        vec!["the quick", "brown fox", "jumps over", "the lazy", "dog"]
    );
}

#[test]
fn wrap_long_word_gets_own_line() {
    assert_eq!(wrap("a supercalifragilistic b", 5), vec!["a", "supercalifragilistic", "b"]);
}

#[test]
fn wrap_collapses_whitespace_and_empty_text() {
    assert_eq!(wrap("  one \n\t two  ", 40), vec!["one two"]);
    assert!(wrap("", 40).is_empty());
    assert!(wrap("   ", 40).is_empty());
}

#[test]
fn wrap_keeps_words_in_order() {
    let text = "Gebratene Nudeln mit Gemüse und Hühnerfleisch, dazu ein kleiner Salat";
    let lines = wrap(text, 12);
    assert_eq!(lines.join(" "), text.split_whitespace().collect::<Vec<_>>().join(" "));
    assert!(lines.iter().all(|l| !l.is_empty() && (l.chars().count() <= 12 || !l.contains(' '))));
}

#[test]
fn format_item_price_on_last_line() {
    let lines = format_item("Schnitzel", Some("12.50"));
    let expected = format!("Schnitzel{} 12.50", ".".repeat(25));
    assert_eq!(lines, vec![expected]);
    assert_eq!(lines[0].chars().count(), WIDTH);
}

#[test]
fn format_item_without_price() {
    assert_eq!(format_item("Soup of the day", None), vec!["Soup of the day"]);
    assert_eq!(format_item("", None), vec![""]);
}

#[test]
fn format_item_empty_name_with_price() {
    let lines = format_item("", Some("4.00"));
    assert_eq!(lines, vec![format!("{} 4.00", ".".repeat(35))]);
}

#[test]
fn format_item_price_on_own_line_when_no_room() {
    let name = "Vegetarian lasagne with roasted peppers";
    assert_eq!(name.chars().count(), 39);
    let lines = format_item(name, Some("9.90"));
    assert_eq!(lines, vec![name.to_string(), format!("{} 9.90", ".".repeat(35))]);
}

#[test]
fn format_item_price_needs_two_dots() {
    // 34 + 4 + 2 = 40 fits with one dot and a space.
    let name = "a".repeat(34);
    let lines = format_item(&name, Some("1.00"));
    assert_eq!(lines, vec![format!("{name}. 1.00")]);
    // 35 + 4 + 2 = 41 does not fit.
    let name = "a".repeat(35);
    let lines = format_item(&name, Some("1.00"));
    assert_eq!(lines, vec![name.clone(), format!("{} 1.00", ".".repeat(35))]);
}

#[test]
fn format_item_overlong_price() {
    let price = "x".repeat(45);
    let lines = format_item("Dish", Some(&price));
    assert_eq!(lines, vec!["Dish".to_string(), format!(" {price}")]);
}

fn sample_menu() -> RawData {
    RawData {
        date: "2024-05-03".to_string(),
        results: vec![
            MenuResult {
                restaurant: Restaurant { name: "Mensa".to_string() },
                status: "ok".to_string(),
                items: vec![
                    MenuItem { name: "Pasta".to_string(), price: Some("3.50".to_string()) },
                    MenuItem { name: "Salad".to_string(), price: None },
                ],
            },
            MenuResult {
                restaurant: Restaurant { name: "Bistro".to_string() },
                status: "closed".to_string(),
                items: vec![],
            },
            MenuResult {
                restaurant: Restaurant { name: "Canteen".to_string() },
                status: "ok".to_string(),
                items: vec![],
            },
        ],
    }
}

fn mascot() -> Bitmap {
    let mut b = Bitmap::new(3, 2);
    b.set(1, 0);
    b.set(0, 1);
    b.set(2, 1);
    b
}

fn mascot_ops() -> Vec<PrintOp> {
    vec![
        PrintOp::Raw(vec![0x1B, 0x55, 0x01]),
        PrintOp::Justify(Align::Left),
        PrintOp::LineSpacing(16),
        PrintOp::Raw(vec![0x1B, b'*', 0, 3, 0, 0x40, 0x80, 0x40, 0x0A]),
        PrintOp::ResetLineSpacing,
        PrintOp::Feed,
    ]
}

#[test]
fn menu_job_prints_each_restaurant() {
    let ops = menu_job(&sample_menu(), &mascot());
    let expected = vec![
        PrintOp::Init,
        PrintOp::Justify(Align::Center),
        PrintOp::Bold(true),
        line("Menu 2024-05-03"),
        PrintOp::Bold(false),
        PrintOp::Justify(Align::Left),
        PrintOp::Feed,
        PrintOp::Bold(true),
        line("Mensa"),
        PrintOp::Bold(false),
        line(&format!("Pasta{} 3.50", ".".repeat(30))),
        line("Salad"),
        PrintOp::Feed,
        PrintOp::Bold(true),
        line("Bistro"),
        PrintOp::Bold(false),
        line("  (closed)"),
        PrintOp::Feed,
        PrintOp::Bold(true),
        line("Canteen"),
        PrintOp::Bold(false),
        line("  (no items)"),
        PrintOp::Feed,
    ];
    let expected: Vec<PrintOp> =
        expected.into_iter().chain(mascot_ops()).chain([PrintOp::PrintCut]).collect();
    assert_eq!(ops, expected);
    assert_eq!(IMAGE_MODE, 0);
    assert_eq!(IMAGE_BAND_FEED, 16);
}

#[test]
fn menu_job_without_restaurants() {
    let data = RawData { date: "today".to_string(), results: vec![] };
    let expected: Vec<PrintOp> = vec![
        PrintOp::Init,
        PrintOp::Justify(Align::Center),
        PrintOp::Bold(true),
        line("Menu today"),
        PrintOp::Bold(false),
        PrintOp::Justify(Align::Left),
        PrintOp::Feed,
    ]
    .into_iter()
    .chain(mascot_ops())
    .chain([PrintOp::PrintCut])
    .collect();
    assert_eq!(menu_job(&data, &mascot()), expected);
}

// ---------------------------------------------------------------- form decoding

#[test]
fn hex_value_digits() {
    assert_eq!(hex_value(b'0'), Some(0));
    assert_eq!(hex_value(b'7'), Some(7));
    assert_eq!(hex_value(b'a'), Some(10));
    assert_eq!(hex_value(b'c'), Some(12));
    assert_eq!(hex_value(b'F'), Some(15));
    assert_eq!(hex_value(b'g'), None);
    assert_eq!(hex_value(b'G'), None);
    assert_eq!(hex_value(b'/'), None);
    assert_eq!(hex_value(b':'), None);
}

#[test]
fn percent_decode_basic() {
    assert_eq!(percent_decode("a+b%20c"), "a b c");
    assert_eq!(percent_decode("%41"), "A");
    assert_eq!(percent_decode("%C3%A9t%C3%A9"), "été");
    assert_eq!(percent_decode("plain"), "plain");
    assert_eq!(percent_decode(""), "");
}

#[test]
fn percent_decode_leaves_bad_escapes() {
    assert_eq!(percent_decode("%zz"), "%zz");
    assert_eq!(percent_decode("100%"), "100%");
    assert_eq!(percent_decode("%4"), "%4");
    assert_eq!(percent_decode("%%41"), "%A");
    assert_eq!(percent_decode("%4g"), "%4g");
}

#[test]
fn percent_decode_invalid_utf8_is_replaced() {
    assert_eq!(percent_decode("%FF"), "\u{FFFD}");
    assert_eq!(percent_decode("a%C3"), "a\u{FFFD}");
}

#[test]
fn percent_roundtrip_on_all_bytes() {
    let bytes: Vec<u8> = (0..=255u8).collect();
    let encoded: Vec<u8> = bytes.iter().flat_map(|b| format!("%{b:02X}").into_bytes()).collect();
    assert_eq!(percent_decode_bytes(&encoded), bytes);
}

#[test]
fn parse_form_pairs() {
    assert_eq!(
        parse_form("suggestions=a%0Ab&name=Jo+Doe&&x&=v&k=a=b"),
        vec![
            ("suggestions".to_string(), "a\nb".to_string()),
            ("name".to_string(), "Jo Doe".to_string()),
            ("x".to_string(), "".to_string()),
            ("".to_string(), "v".to_string()),
            ("k".to_string(), "a=b".to_string()),
        ]
    );
    assert!(parse_form("").is_empty());
    assert!(parse_form("&&").is_empty());
}

// ---------------------------------------------------------------- voting machine

#[test]
fn vote_job_prints_reversed_and_signed() {
    let (outcome, ops) = vote_job("suggestions=One%0D%0A++Two++%0A%0A&name=");
    assert_eq!(outcome, Outcome::Printed);
    assert_eq!(
        ops,
        vec![
            PrintOp::Init,
            PrintOp::UpsideDown(true),
            line("Two"),
            line("One"),
            PrintOp::Bold(true),
            line("Suggested by Anonymous"),
            PrintOp::Bold(false),
            PrintOp::UpsideDown(false),
            PrintOp::Feeds(8),
            PrintOp::Print,
        ]
    );
}

#[test]
fn vote_job_uses_trimmed_name_and_last_field() {
    let (outcome, ops) = vote_job("name=first&suggestions=Zed&name=+%20Ann+Lee+");
    assert_eq!(outcome, Outcome::Printed);
    assert_eq!(ops[2], line("Zed"));
    assert_eq!(ops[4], line("Suggested by Ann Lee"));
}

#[test]
fn vote_job_without_suggestion_is_empty() {
    let (outcome, ops) = vote_job("suggestions=+%0A+%0D%0A&name=Bob");
    assert_eq!(outcome, Outcome::Empty);
    assert!(ops.is_empty());
    let (outcome, ops) = vote_job("name=Bob");
    assert_eq!(outcome, Outcome::Empty);
    assert!(ops.is_empty());
}

#[test]
fn vote_job_limits_name_and_suggestions() {
    let name = "n".repeat(80);
    let body = format!("suggestions={}XYZ&name={name}", "s".repeat(498));
    let (outcome, ops) = vote_job(&body);
    assert_eq!(outcome, Outcome::Printed);
    assert_eq!(ops[2], line(&format!("{}XY", "s".repeat(498))));
    assert_eq!(ops[4], line(&format!("Suggested by {}", "n".repeat(67))));
}

#[test]
fn vote_routes_and_replies() {
    assert_eq!(vote_route(Method::Get, "/vote"), VoteRoute::Form);
    assert_eq!(vote_route(Method::Post, "/vote"), VoteRoute::Vote);
    assert_eq!(vote_route(Method::Other, "/vote"), VoteRoute::NotFound);
    assert_eq!(vote_route(Method::Get, "/votes"), VoteRoute::NotFound);
    assert_eq!(vote_reply(Some(Outcome::Printed)), (Page::Thanks, 200));
    assert_eq!(vote_reply(Some(Outcome::Empty)), (Page::Empty, 400));
    assert_eq!(vote_reply(None), (Page::Error, 500));
}

// ---------------------------------------------------------------- print server

#[test]
fn text_job_prints_each_line_then_cuts() {
    assert_eq!(
        text_job("Line one\nLine two\r\n"),
        vec![PrintOp::Init, line("Line one"), line("Line two"), PrintOp::PrintCut]
    );
    assert_eq!(text_job(""), vec![PrintOp::Init, PrintOp::PrintCut]);
    assert_eq!(text_job("Hello from curl"), vec![PrintOp::Init, line("Hello from curl"), PrintOp::PrintCut]);
}

#[test]
fn print_server_routes() {
    assert_eq!(route(Method::Post, "/print"), Route::Print);
    assert_eq!(route(Method::Get, "/food"), Route::Food);
    assert_eq!(route(Method::Get, "/print"), Route::NotFound);
    assert_eq!(route(Method::Post, "/food"), Route::NotFound);
    assert_eq!(route(Method::Post, "/"), Route::NotFound);
    assert_eq!(reply_status(Route::Print, true), 200);
    assert_eq!(reply_status(Route::Food, false), 500);
    assert_eq!(reply_status(Route::NotFound, true), 404);
}

#[test]
fn sender_label_prefers_proxy_header() {
    assert_eq!(sender_label(Some("10.0.0.7"), Some("127.0.0.1")), "10.0.0.7");
    assert_eq!(sender_label(None, Some("127.0.0.1")), "127.0.0.1");
    assert_eq!(sender_label(None, None), "unknown");
}

#[test]
fn banner_lines_keep_non_blank() {
    assert_eq!(banner_lines("  First  \n\n \t\nSecond\r\n"), Ok(vec!["  First".to_string(), "Second".to_string()]));
    assert_eq!(banner_lines(" \n\t\n"), Err(BannerError::NoLines));
    assert_eq!(banner_lines(""), Err(BannerError::NoLines));
}

#[test]
fn success_status_class() {
    assert!(is_success_status(200));
    assert!(is_success_status(299));
    assert!(!is_success_status(199));
    assert!(!is_success_status(300));
    assert!(!is_success_status(404));
}

// ---------------------------------------------------------------- ip notifier

#[test]
fn interfaces_report_lists_addresses() {
    let interfaces = vec![
        Interface { name: "eth0".to_string(), addresses: vec!["192.168.1.5".to_string(), "fe80::1".to_string()] },
        Interface { name: "wlan0".to_string(), addresses: vec!["10.0.0.2".to_string()] },
    ];
    assert_eq!(
        format_interfaces("pi", "2024-05-03 12:00:00", &interfaces),
        "Current network interfaces of\npi\n2024-05-03 12:00:00\n\neth0\n  192.168.1.5\n  fe80::1\n\nwlan0\n  10.0.0.2\n"
    );
}

#[test]
fn interfaces_report_without_interfaces() {
    assert_eq!(
        format_interfaces("pi", "now", &vec![]),
        "Current network interfaces of\npi\nnow\n\nNo network interfaces found.\n"
    );
}

#[test]
fn readme_multi_line_print() {
    assert_eq!(
        text_job("Line one\nLine two"),
        vec![PrintOp::Init, line("Line one"), line("Line two"), PrintOp::PrintCut]
    );
}

#[test]
fn lines_rejoin_to_text() {
    for text in ["", "a", "a\nb", "\nx", "a\n\n\nb", "one two\nthree"] {
        let joined: Vec<String> = split_lines(&chars(text)).into_iter().map(|l| l.into_iter().collect()).collect();
        assert_eq!(joined.join("\n"), text);
    }
}

#[test]
fn menu_ends_with_mascot_then_cut() {
    let ops = menu_job(&sample_menu(), &mascot());
    let n = ops.len();
    assert_eq!(ops[n - 1], PrintOp::PrintCut);
    assert_eq!(ops[n - 4], PrintOp::Raw(encode_bit_image(&mascot(), 0)));
}

#[test]
fn set_changes_one_bit_of_encoding() {
    let (w, h) = (5usize, 11usize);
    let mut b = Bitmap::new(w, h);
    b.set(1, 1);
    b.set(4, 9);
    let e1 = encode_bit_image(&b, 1);
    let (x, y) = (3usize, 10usize);
    b.set(x as isize, y as isize);
    let e2 = encode_bit_image(&b, 1);
    let i = (y / 8) * (w + 6) + 5 + x;
    assert_eq!(e1.len(), e2.len());
    assert_eq!(e2[i], e1[i] | (0x80 >> (y % 8)));
    for j in 0..e1.len() {
        if j != i {
            assert_eq!(e1[j], e2[j]);
        }
    }
}

#[test]
fn percent_decode_partly_escaped() {
    assert_eq!(percent_decode("100%25+sure%2b%2B"), "100% sure++");
    assert_eq!(percent_decode("caf%C3%a9 ok"), "café ok");
    assert_eq!(percent_decode("%e2%82%ac5"), "€5");
    let text = "Grüße, 50% + mehr & so=weiter";
    let escaped: String = text
        .chars()
        .enumerate()
        .map(|(i, c)| {
            if c == '%' || c == '+' || (c.is_ascii() && i % 3 == 0) {
                if i % 2 == 0 { format!("%{:02X}", c as u32) } else { format!("%{:02x}", c as u32) }
            } else {
                c.to_string()
            }
        })
        .collect();
    assert_eq!(percent_decode(&escaped), text);
}

#[test]
fn parse_form_values_are_decoded_text() {
    let pairs = parse_form("a=%C3%A9%2B&b=x%26y%3Dz");
    assert_eq!(pairs, vec![("a".to_string(), "é+".to_string()), ("b".to_string(), "x&y=z".to_string())]);
}

#[test]
fn reply_bodies() {
    assert_eq!(reply_body(Route::Print, None), "printed\n");
    assert_eq!(reply_body(Route::Food, None), "printed\n");
    assert_eq!(reply_body(Route::Print, Some("no paper")), "print failed: no paper\n");
    assert_eq!(reply_body(Route::Food, Some("timeout")), "food failed: timeout\n");
    assert_eq!(reply_body(Route::NotFound, Some("x")), "not found\n");
}

#[test]
fn pbm_reads_plain_bitmap() {
    let b = parse_pbm(b"P1\n# no comments\n").is_none();
    assert!(b);
    let img = parse_pbm(b"P1\n3 2\n0 1 0\n101\n").expect("valid image");
    assert_eq!(img.width(), 3);
    assert_eq!(img.height(), 2);
    let dots: Vec<bool> = (0..2).flat_map(|y| (0..3).map(move |x| (x, y))).map(|(x, y)| img.get(x, y)).collect();
    assert_eq!(dots, vec![false, true, false, true, false, true]);
    assert_eq!(encode_bit_image(&img, 0), encode_bit_image(&mascot(), 0));
}

#[test]
fn pbm_rejects_malformed() {
    assert!(parse_pbm(b"").is_none());
    assert!(parse_pbm(b"P2 1 1 0").is_none());
    assert!(parse_pbm(b"P1 2 2 010").is_none());
    assert!(parse_pbm(b"P1 2 2 01012").is_none());
    assert!(parse_pbm(b"P1 1 1 2").is_none());
    assert!(parse_pbm(b"P1 x 1 0").is_none());
    assert!(parse_pbm(b"P1 99999999999999999999999 0").is_none());
    let empty = parse_pbm(b"P1 0 0").expect("empty image");
    assert_eq!((empty.width(), empty.height()), (0, 0));
}

#[test]
fn banner_refusal_message() {
    match banner_lines("  \n") {
        Err(e) => assert_eq!(e.message(), "banner requires at least one non-empty line"),
        Ok(_) => panic!("blank banner accepted"),
    }
}

#[test]
fn header_lookup_ignores_case_and_takes_first() {
    let headers = vec![
        ("Host".to_string(), "pi".to_string()),
        ("x-real-ip".to_string(), "10.0.0.9".to_string()),
        ("X-Real-IP".to_string(), "10.0.0.1".to_string()),
    ];
    assert_eq!(header_value(&headers, "X-Real-IP"), Some("10.0.0.9".to_string()));
    assert_eq!(header_value(&headers, "host"), Some("pi".to_string()));
    assert_eq!(header_value(&headers, "X-Forwarded-For"), None);
    assert_eq!(header_value(&vec![], "X-Real-IP"), None);
    assert_eq!(header_value(&headers, "X-Real-I"), None);
}

fn addr(name: &str, loopback: bool, family: u8, bits: u128) -> InterfaceAddr {
    InterfaceAddr { name: name.to_string(), loopback, family, bits }
}

#[test]
fn interfaces_grouped_sorted_and_deduplicated() {
    let entries = vec![
        addr("wlan0", false, 0, 0x0A00_0002),
        addr("lo", true, 0, 0x7F00_0001),
        addr("eth0", false, 1, 0xFE80 << 112 | 1),
        addr("eth0", false, 0, 0xC0A8_0105),
        addr("wlan0", false, 0, 0x0A00_0002),
        addr("eth0", false, 0, 0x0A00_0001),
        addr("Eth1", false, 0, 5),
    ];
    let groups = group_interfaces(&entries);
    let view: Vec<(String, Vec<(u8, u128)>)> = groups.into_iter().map(|g| (g.name, g.addresses)).collect();
    assert_eq!(
        view,
        vec![
            ("Eth1".to_string(), vec![(0, 5)]),
            ("eth0".to_string(), vec![(0, 0x0A00_0001), (0, 0xC0A8_0105), (1, 0xFE80 << 112 | 1)]),
            ("wlan0".to_string(), vec![(0, 0x0A00_0002)]),
        ]
    );
    assert!(group_interfaces(&vec![addr("lo", true, 1, 1)]).is_empty());
}
