use log_parser::get_delimited;
use log_parser::parse;
use log_parser::until_delimiter;
use log_parser::until_end;
use log_parser::until_seperator;
use log_parser::until_space;
use log_parser::LineError;
use log_parser::LogFormat;
use log_parser::TemplateError;

#[test]
fn test_new_log_format() {
    let log_format = r#"$remote_addr - $remote_user [$time_local] "$request" $status $body_bytes_sent "$http_referer" "$http_user_agent""#;
    let format = LogFormat::new(log_format, " ").unwrap();
    assert_eq!(format.fields.len(), 9);
    assert_eq!(format.fields[1].name, "field1");
    assert_eq!(format.fields[7].name, "http_referer");
    assert_eq!(format.fields[3].terminated_by, "]");
    assert_eq!(format.fields[8].preceded_by, "\"");
}

#[test]
fn lib_test_until_space() {
    assert_eq!(until_seperator("135.125.244.48 -", " "), Some((" -", "135.125.244.48")));
    assert_eq!(until_seperator("135.125.244.48\n", " "), Some(("\n", "135.125.244.48")));
    assert_eq!(until_seperator(" 135.125.244.48 -", " "), Some((" 135.125.244.48 -", "")));
}

#[test]
fn lib_test_until_delimiter() {
    assert_eq!(
        until_delimiter(r#" "GET /.env HTTP/1.1" 404"#, r#"""#),
        Some((r#""GET /.env HTTP/1.1" 404"#, " "))
    );
    assert_eq!(
        until_delimiter(r#" [15/Apr/2022:14:27:16 +0000]"#, r#"["#),
        Some((r#"[15/Apr/2022:14:27:16 +0000]"#, " "))
    );
    assert_eq!(
        until_delimiter(r#"[15/Apr/2022:14:27:16 +0000]"#, r#"["#),
        Some((r#"[15/Apr/2022:14:27:16 +0000]"#, ""))
    );
}

#[test]
fn lib_test_get_delimited() {
    assert_eq!(
        get_delimited(r#""GET /.env HTTP/1.1" 404"#, r#"""#, r#"""#),
        Some(("\" 404", "GET /.env HTTP/1.1"))
    );
    assert_eq!(
        get_delimited(r#"[15/Apr/2022:14:27:16 +0000]"#, r#"["#, r#"]"#),
        Some(("]", "15/Apr/2022:14:27:16 +0000"))
    );
    assert_eq!(get_delimited(r#"135.125.244.48 -"#, r#""#, r#" "#), Some((" -", "135.125.244.48")));
}

#[test]
fn lib_test_parse() {
    let format = r#"$remote_addr - $remote_user [$time_local] "$request" $status $body_bytes_sent "$http_referer" "$http_user_agent""#;
    let log_format = LogFormat::new(format, " ").unwrap();
    let log_string = r#"185.254.196.115 - - [15/Apr/2022:14:27:16 +0000] "GET /.env HTTP/1.1" 404 1371 "-" "Mozilla/5.0 (X11; Linux x86_64) AppleWebKit/537.36 (KHTML, like Gecko) Chrome/81.0.4044.129 Safari/537.36""#;
    let log_message = parse(log_format, log_string).unwrap();
    assert_eq!(log_message.len(), 9);
    assert_eq!(log_message.get("remote_addr").unwrap(), "185.254.196.115");
    assert_eq!(log_message.get("remote_user").unwrap(), "-");
    assert_eq!(log_message.get("time_local").unwrap(), "15/Apr/2022:14:27:16 +0000");
    assert_eq!(log_message.get("request").unwrap(), "GET /.env HTTP/1.1");
    assert_eq!(log_message.get("status").unwrap(), "404");
    assert_eq!(log_message.get("body_bytes_sent").unwrap(), "1371");
    assert_eq!(log_message.get("http_referer").unwrap(), "-");
    assert_eq!(
        log_message.get("http_user_agent").unwrap(),
        "Mozilla/5.0 (X11; Linux x86_64) AppleWebKit/537.36 (KHTML, like Gecko) Chrome/81.0.4044.129 Safari/537.36"
    );
}

#[test]
fn main_test_until_space() {
    assert_eq!(until_space("135.125.244.48 -"), Some((" -", "135.125.244.48")));
    assert_eq!(until_space("135.125.244.48\n"), Some(("\n", "135.125.244.48")));
}

#[test]
fn test_until_end() {
    assert_eq!(until_end("135.125.244.48 -"), ("", "135.125.244.48 -"));
}

#[test]
fn main_test_until_delimiter() {
    assert_eq!(
        until_delimiter(r#" "GET /.env HTTP/1.1" 404"#, r#"""#),
        Some((r#""GET /.env HTTP/1.1" 404"#, " "))
    );
}

#[test]
fn main_test_parse() {
    let log_format = r#"$remote_addr - $remote_user [$time_local] "$request" $status $body_bytes_sent "$http_referer" "$http_user_agent""#;
    let log_string = r#"185.254.196.115 - - [15/Apr/2022:14:27:16 +0000] "GET /.env HTTP/1.1" 404 1371 "-" "Mozilla/5.0 (X11; Linux x86_64) AppleWebKit/537.36 (KHTML, like Gecko) Chrome/81.0.4044.129 Safari/537.36""#;
    let format = LogFormat::new(log_format, " ").unwrap();
    let log_message = parse(format, log_string).unwrap();
    assert_eq!(log_message.len(), 9);
    assert_eq!(log_message.get("remote_addr").unwrap(), "185.254.196.115");
    assert_eq!(log_message.get("remote_user").unwrap(), "-");
    assert_eq!(log_message.get("time_local").unwrap(), "15/Apr/2022:14:27:16 +0000");
    assert_eq!(log_message.get("request").unwrap(), "GET /.env HTTP/1.1");
    assert_eq!(log_message.get("status").unwrap(), "404");
    assert_eq!(log_message.get("body_bytes_sent").unwrap(), "1371");
    assert_eq!(log_message.get("http_referer").unwrap(), "-");
    assert_eq!(
        log_message.get("http_user_agent").unwrap(),
        "Mozilla/5.0 (X11; Linux x86_64) AppleWebKit/537.36 (KHTML, like Gecko) Chrome/81.0.4044.129 Safari/537.36"
    );
}

#[test]
fn test_parse_test_parse() {
    let format = r#"$remote_addr - $remote_user [$time_local] "$request" $status $body_bytes_sent "$http_referer" "$http_user_agent""#;
    let log_format = LogFormat::new(format, " ").unwrap();
    let log_string = r#"167.71.134.212 - - [15/Apr/2022:14:04:30 +0000] "\xE6T\xA1\x12)\x05\x1D\xF6\xED\xAD\x84M\x10\xF5\x9Cj\xE1\x87\xB2\xF6\xC2#\xAF}\x90\x8D\xB3M\xB0:\xB7\xF9W\xEA\xF0\xBDc\x07\xC8Z\xC9p\x83\x1A%\xDD\xC6\x5C\x81\x91\xFD\xBAX7u\xE3\x80\xE8\xFCd\x9C\x93l&\xF2bDBr" 400 172 "-" "-""#;
    let log_message = parse(log_format, log_string).unwrap();
    assert_eq!(log_message.len(), 9);
    assert_eq!(log_message.get("remote_addr").unwrap(), "167.71.134.212");
    assert_eq!(log_message.get("remote_user").unwrap(), "-");
    assert_eq!(log_message.get("time_local").unwrap(), "15/Apr/2022:14:04:30 +0000");
    assert_eq!(
        log_message.get("request").unwrap(),
        r#"\xE6T\xA1\x12)\x05\x1D\xF6\xED\xAD\x84M\x10\xF5\x9Cj\xE1\x87\xB2\xF6\xC2#\xAF}\x90\x8D\xB3M\xB0:\xB7\xF9W\xEA\xF0\xBDc\x07\xC8Z\xC9p\x83\x1A%\xDD\xC6\x5C\x81\x91\xFD\xBAX7u\xE3\x80\xE8\xFCd\x9C\x93l&\xF2bDBr"#
    );
    assert_eq!(log_message.get("status").unwrap(), "400");
    assert_eq!(log_message.get("body_bytes_sent").unwrap(), "172");
    assert_eq!(log_message.get("http_referer").unwrap(), "-");
    assert_eq!(log_message.get("http_user_agent").unwrap(), "-");
}

#[test]
fn test_unclosed_bracket_is_malformed() {
    let log_format = LogFormat::new("$addr [$time] $status", " ").unwrap();
    let result = parse(log_format, "1.2.3.4 [15/Apr/2022:14:27:16 +0000 200");
    assert_eq!(result, Err(LineError::MalformedLine));
}

#[test]
fn test_missing_separator_is_malformed() {
    let log_format = LogFormat::new("$a $b $c", " ").unwrap();
    let result = parse(log_format, "one two");
    assert_eq!(result, Err(LineError::MalformedLine));
}

#[test]
fn test_malformed_placeholder_is_invalid_template() {
    assert_eq!(LogFormat::new("$addr $ $status", " "), Err(TemplateError::InvalidTemplate));
    assert_eq!(LogFormat::new("$", " "), Err(TemplateError::InvalidTemplate));
}

#[test]
fn test_synthetic_names_count_past_ten() {
    let template = "a b c d e f g h i j $k l";
    let format = LogFormat::new(template, " ").unwrap();
    assert_eq!(format.fields.len(), 12);
    assert_eq!(format.fields[0].name, "field0");
    assert_eq!(format.fields[9].name, "field9");
    assert_eq!(format.fields[10].name, "k");
    assert_eq!(format.fields[11].name, "field11");
}

#[test]
fn test_bare_token_has_no_delimiters() {
    let format = LogFormat::new("$first $second", " ").unwrap();
    assert_eq!(format.fields[0].preceded_by, "");
    assert_eq!(format.fields[0].terminated_by, "");
    assert_eq!(format.fields[1].preceded_by, "");
    assert_eq!(format.fields[1].terminated_by, "");
}

#[test]
fn test_boundary_fields_with_declared_delimiters() {
    let format = LogFormat::new(r#"[$start] $middle "$end""#, " ").unwrap();
    assert_eq!(format.fields[0].preceded_by, "[");
    assert_eq!(format.fields[0].terminated_by, "]");
    assert_eq!(format.fields[2].preceded_by, "\"");
    assert_eq!(format.fields[2].terminated_by, "\"");
    let record = parse(format, r#"[one] two "three""#).unwrap();
    assert_eq!(record.get("start").unwrap(), "one");
    assert_eq!(record.get("middle").unwrap(), "two");
    assert_eq!(record.get("end").unwrap(), "three");
}

#[test]
fn test_round_trip_plain_fields() {
    let format = LogFormat::new("$a $b $c", " ").unwrap();
    let record = parse(format, "alpha beta gamma").unwrap();
    assert_eq!(record.len(), 3);
    assert_eq!(record.get("a").unwrap(), "alpha");
    assert_eq!(record.get("b").unwrap(), "beta");
    assert_eq!(record.get("c").unwrap(), "gamma");
}

#[test]
fn test_single_field_takes_whole_line() {
    let format = LogFormat::new("$only", " ").unwrap();
    let record = parse(format, "everything on the line").unwrap();
    assert_eq!(record.len(), 1);
    assert_eq!(record.get("only").unwrap(), "everything on the line");
}

#[test]
fn test_duplicate_names_last_wins() {
    let format = LogFormat::new("$a $a", " ").unwrap();
    let record = parse(format, "one two").unwrap();
    assert_eq!(record.len(), 2);
    assert_eq!(record.get("a").unwrap(), "two");
}

#[test]
fn test_empty_template_is_one_positional_field() {
    let format = LogFormat::new("", " ").unwrap();
    assert_eq!(format.fields.len(), 1);
    assert_eq!(format.fields[0].name, "field0");
    let record = parse(format, "whole line").unwrap();
    assert_eq!(record.get("field0").unwrap(), "whole line");
}

#[test]
fn test_record_get_unknown_name() {
    let format = LogFormat::new("$a $b", " ").unwrap();
    let record = parse(format, "one two").unwrap();
    assert!(record.get("missing").is_none());
}
