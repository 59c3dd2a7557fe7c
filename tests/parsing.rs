use ferru_wireless_applet::records::parse_line;
use ferru_wireless_applet::text::trim_chars;
use ferru_wireless_applet::{
    parse_ap_list, parse_signal, precedes, ranks_before, split_escaped, AccessPoint,
};

fn chars(s: &str) -> Vec<char> {
    s.chars().collect()
}

fn ap(ssid: &str, signal: u8, secure: bool, active: bool) -> AccessPoint {
    AccessPoint { ssid: ssid.to_string(), signal, secure, active }
}

fn escape(field: &str) -> String {
    let mut out = String::new();
    for c in field.chars() {
        if c == '\\' || c == ':' {
            out.push('\\');
        }
        out.push(c);
    }
    out
}

#[test]
fn split_plain_fields() {
    assert_eq!(split_escaped("a:b:c", ':'), vec!["a", "b", "c"]);
}

#[test]
fn split_without_delimiter_gives_one_field() {
    assert_eq!(split_escaped("abc", ':'), vec!["abc"]);
    assert_eq!(split_escaped("", ':'), vec![""]);
}

#[test]
fn split_keeps_trailing_empty_fields() {
    assert_eq!(split_escaped("a::", ':'), vec!["a", "", ""]);
    assert_eq!(split_escaped(":: :0", ':'), vec!["", "", " ", "0"]);
}

#[test]
fn split_honours_escapes() {
    assert_eq!(split_escaped(r"My\:Net:x", ':'), vec!["My:Net", "x"]);
    assert_eq!(split_escaped(r"back\\:x", ':'), vec![r"back\", "x"]);
    assert_eq!(split_escaped(r"a\\\:b", ':'), vec![r"a\:b"]);
}

#[test]
fn split_non_ascii() {
    assert_eq!(split_escaped("Café:ü\\:ß", ':'), vec!["Café", "ü:ß"]);
}

#[test]
fn escape_round_trip_on_examples() {
    let cases: Vec<Vec<&str>> = vec![
        vec!["*", "Home", "WPA2", "87"],
        vec!["", "a:b", r"c\d", ""],
        vec![r"\:", "::", r"\\"],
        vec![""],
    ];
    for fields in cases {
        let line: Vec<String> = fields.iter().map(|f| escape(f)).collect();
        let line = line.join(":");
        assert_eq!(split_escaped(&line, ':'), fields);
    }
}

#[test]
fn merges_two_observations_of_one_network() {
    let aps = parse_ap_list("*:Home:WPA2:87\n :Home:--:40\n");
    assert_eq!(aps.len(), 1);
    assert_eq!(aps[0].ssid, "Home");
    assert_eq!(aps[0].signal, 87);
    assert!(aps[0].secure);
    assert!(aps[0].active);
}

#[test]
fn merge_takes_max_signal_and_or_of_flags() {
    let aps = parse_ap_list(" :Net:--:30\n*:Net::20\n :Net:WPA2:55");
    assert_eq!(aps.len(), 1);
    assert_eq!(aps[0].signal, 55);
    assert!(aps[0].secure);
    assert!(aps[0].active);
}

#[test]
fn empty_ssid_is_hidden_network() {
    let aps = parse_ap_list(":: :0");
    assert_eq!(aps.len(), 1);
    assert_eq!(aps[0].ssid, "Hidden network");
    assert_eq!(aps[0].signal, 0);
    assert!(!aps[0].secure);
    assert!(!aps[0].active);
}

#[test]
fn sorting_active_then_signal_then_name() {
    let aps = parse_ap_list(" :B:WPA2:87\n*:A:WPA2:40\n :C:WPA2:40\n");
    let names: Vec<&str> = aps.iter().map(|a| a.ssid.as_str()).collect();
    assert_eq!(names, vec!["A", "B", "C"]);
}

#[test]
fn sorting_ties_ignore_case() {
    let aps = parse_ap_list(" :banana::50\n :Apple::50\n :cherry::50\n");
    let names: Vec<&str> = aps.iter().map(|a| a.ssid.as_str()).collect();
    assert_eq!(names, vec!["Apple", "banana", "cherry"]);
}

#[test]
fn malformed_and_blank_lines_are_skipped() {
    let aps = parse_ap_list("\n   \n*:Only:two\n :Good:WPA2:70\n garbage\n");
    assert_eq!(aps.len(), 1);
    assert_eq!(aps[0].ssid, "Good");
}

#[test]
fn empty_output_gives_no_records() {
    assert!(parse_ap_list("").is_empty());
}

#[test]
fn escaped_colon_in_ssid() {
    let aps = parse_ap_list(r" :My\:Net:WPA2:61");
    assert_eq!(aps.len(), 1);
    assert_eq!(aps[0].ssid, "My:Net");
    assert_eq!(aps[0].signal, 61);
}

#[test]
fn fields_are_trimmed_and_crlf_lines_accepted() {
    let aps = parse_ap_list("  * : Cafe : WPA2 : 77 \r\n");
    assert_eq!(aps.len(), 1);
    assert_eq!(aps[0].ssid, "Cafe");
    assert_eq!(aps[0].signal, 77);
    assert!(aps[0].active);
}

#[test]
fn signal_values() {
    assert_eq!(parse_signal(&chars("87")), 87);
    assert_eq!(parse_signal(&chars("0")), 0);
    assert_eq!(parse_signal(&chars("100")), 100);
    assert_eq!(parse_signal(&chars("150")), 100);
    assert_eq!(parse_signal(&chars("300")), 100);
    assert_eq!(parse_signal(&chars("+42")), 42);
    assert_eq!(parse_signal(&chars("-5")), 0);
    assert_eq!(parse_signal(&chars("abc")), 0);
    assert_eq!(parse_signal(&chars("")), 0);
    assert_eq!(parse_signal(&chars("+")), 0);
    assert_eq!(parse_signal(&chars("4x")), 0);
}

#[test]
fn security_markers() {
    let open = parse_line(&chars(" :A:--:10")).unwrap();
    assert!(!open.secure);
    let blank = parse_line(&chars(" :A: :10")).unwrap();
    assert!(!blank.secure);
    let wpa = parse_line(&chars(" :A:WPA1 WPA2:10")).unwrap();
    assert!(wpa.secure);
    assert!(parse_line(&chars("a:b:c")).is_none());
}

#[test]
fn trim_removes_surrounding_whitespace() {
    assert_eq!(trim_chars(&chars(" \t Home \n")), chars("Home"));
    assert_eq!(trim_chars(&chars("   ")), chars(""));
    assert_eq!(trim_chars(&chars("\u{00a0}x y\u{2003}")), chars("x y"));
}

#[test]
fn order_of_records() {
    assert!(precedes(&ap("Z", 10, false, true), &ap("A", 99, false, false)));
    assert!(precedes(&ap("Z", 99, false, false), &ap("A", 10, false, false)));
    assert!(precedes(&ap("apple", 50, false, false), &ap("Banana", 50, false, false)));
    assert!(!precedes(&ap("Banana", 50, false, false), &ap("apple", 50, false, false)));
    assert!(precedes(&ap("HOME", 50, false, false), &ap("home", 50, false, false)));
    assert!(!precedes(&ap("x", 50, false, false), &ap("x", 50, false, false)));
}

#[test]
fn order_with_given_keys() {
    let a = ap("B", 50, false, false);
    let b = ap("a", 50, false, false);
    assert!(ranks_before(&a, &chars("b"), &b, &chars("c")));
    assert!(!ranks_before(&a, &chars("d"), &b, &chars("c")));
    assert!(ranks_before(&a, &chars("k"), &b, &chars("k")));
}
