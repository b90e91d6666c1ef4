use datetime_parse::http::{parse_query, parse_querystring_arguments, parse_request_line, split_char, split_target, HttpStatus};

#[test]
fn split_keeps_empty_pieces() {
    assert_eq!(vec!["a", "", "b"], split_char("a  b", ' '));
    assert_eq!(vec![""], split_char("", ' '));
    assert_eq!(vec!["", ""], split_char("&", '&'));
}

#[test]
fn target_splits_at_first_question_mark() {
    assert_eq!(("/assess", Some("g=a?b")), split_target("/assess?g=a?b"));
    assert_eq!(("/health", None), split_target("/health"));
    assert_eq!(("", Some("")), split_target("?"));
}

#[test]
fn query_arguments_are_decoded() {
    let pairs = parse_query("g=parse,clint&name=J%C3%BCrgen+x").unwrap();
    assert_eq!(
        vec![("g".to_string(), "parse,clint".to_string()), ("name".to_string(), "Jürgen+x".to_string())],
        pairs
    );
    assert_eq!(None, parse_query("g"));
    assert_eq!(None, parse_query("a=b=c"));
    assert_eq!(None, parse_query(""));
    assert_eq!(None, parse_query("bad=%FF"));
}

#[test]
fn querystring_builds_the_argument_map() {
    let (path, args) = parse_querystring_arguments("/assess?g=parse&g=globe&x=1").unwrap();
    assert_eq!("/assess", path);
    assert_eq!(2, args.len());
    assert_eq!("globe", args["g"]);
    let (path, args) = parse_querystring_arguments("/health").unwrap();
    assert_eq!("/health", path);
    assert!(args.is_empty());
    assert!(parse_querystring_arguments("/x?oops").is_err());
}

#[test]
fn request_line_is_parsed() {
    let request = parse_request_line("GET /assess?g=parse,clint,globe,glove HTTP/1.1").unwrap();
    assert_eq!("GET", request.verb);
    assert_eq!("/assess", request.path);
    assert_eq!("HTTP/1.1", request.version);
    assert_eq!("parse,clint,globe,glove", request.arguments["g"]);
}

#[test]
fn request_line_errors() {
    let e = parse_request_line("GET /").err().unwrap();
    assert_eq!(HttpStatus::BadRequest, e.code());
    assert_eq!("", e.body());

    let e = parse_request_line("POST / HTTP/1.1").err().unwrap();
    assert_eq!(HttpStatus::MethodNotAllowed, e.code());
    assert_eq!("POST", e.body());

    let e = parse_request_line("GET / HTTP/1.0").err().unwrap();
    assert_eq!(HttpStatus::HttpVersionNotSupported, e.code());
    assert_eq!("HTTP/1.0", e.body());

    let e = parse_request_line("GET /x?y HTTP/1.1").err().unwrap();
    assert_eq!(HttpStatus::BadRequest, e.code());
    assert_eq!("Unable to parse querystring", e.body());
}

#[test]
fn later_arguments_replace_earlier_ones() {
    let pairs = vec![("g".to_string(), "a".to_string()), ("h".to_string(), "b".to_string()), ("g".to_string(), "c".to_string())];
    let map = datetime_parse::http::arguments_map(pairs);
    assert_eq!(2, map.len());
    assert_eq!("c", map["g"]);
    assert_eq!("b", map["h"]);
    let (path, args) = parse_querystring_arguments("/assess?g=parse,clint,globe,glove").unwrap();
    assert_eq!("/assess", path);
    assert_eq!(1, args.len());
    assert_eq!("parse,clint,globe,glove", args["g"]);
}

#[test]
fn malformed_escapes_stay_as_written() {
    let pairs = parse_query("a=%4z%41&b=%zz&c=%4&d=x+y%2b").unwrap();
    assert_eq!(
        vec![
            ("a".to_string(), "%4zA".to_string()),
            ("b".to_string(), "%zz".to_string()),
            ("c".to_string(), "%4".to_string()),
            ("d".to_string(), "x+y+".to_string()),
        ],
        pairs
    );
}
