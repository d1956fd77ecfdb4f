use waygate::GatewayError;
use waygate::WaygateItem;
use waygate::decode_items;
use waygate::delete_item_url;
use waygate::interpret_delete_response;
use waygate::interpret_list_response;
use waygate::list_items_url;

#[test]
fn fetch_decodes_single_item() {
    let r = interpret_list_response(200, r#"[{"id":1,"item":"a","title":"A"}]"#);
    let items = r.unwrap();
    assert_eq!(items.len(), 1);
    assert_eq!(items[0].id, 1);
    assert_eq!(items[0].item, "a");
    assert_eq!(items[0].title, "A");
}

#[test]
fn fetch_decodes_empty_array() {
    let r = interpret_list_response(200, " [ ] ");
    assert_eq!(r.unwrap(), Vec::<WaygateItem>::new());
}

#[test]
fn fetch_preserves_order_and_values() {
    let body = r#"[{"id":2,"item":"b","title":"B"},{"id":-7,"item":"c","title":"C"},{"id":0,"item":"","title":""}]"#;
    let items = interpret_list_response(200, body).unwrap();
    assert_eq!(items.len(), 3);
    assert_eq!(items[0].id, 2);
    assert_eq!(items[1].id, -7);
    assert_eq!(items[1].item, "c");
    assert_eq!(items[2].id, 0);
    assert_eq!(items[2].title, "");
}

#[test]
fn fetch_accepts_any_field_order() {
    let body = r#"[{"title":"A","id":1,"item":"a"}]"#;
    let items = interpret_list_response(200, body).unwrap();
    assert_eq!(items[0].id, 1);
    assert_eq!(items[0].item, "a");
    assert_eq!(items[0].title, "A");
}

#[test]
fn fetch_decodes_string_escapes() {
    let body = r#"[{"id":1,"item":"a\nb","title":"q\"t\\u"}]"#;
    let items = interpret_list_response(200, body).unwrap();
    assert_eq!(items[0].item, "a\nb");
    assert_eq!(items[0].title, "q\"t\\u");
}

#[test]
fn fetch_decodes_unicode_escapes() {
    let body = r#"[{"id":1,"item":"\u0041\u00E9\u4e2d","title":"\uD83D\uDE00\u000A"}]"#;
    let items = interpret_list_response(200, body).unwrap();
    assert_eq!(items[0].item, "A\u{e9}\u{4e2d}");
    assert_eq!(items[0].title, "\u{1F600}\n");
}

#[test]
fn fetch_accepts_escaped_field_names() {
    let body = r#"[{"\u0069d":1,"item":"a","title":"A"}]"#;
    let items = interpret_list_response(200, body).unwrap();
    assert_eq!(items[0].id, 1);
}

#[test]
fn fetch_ignores_unknown_members() {
    let body = r#"[{"id":1,"item":"a","title":"A","note":"xA","n":-1.5e+10,"flag":true,"gone":null,"list":[1,"two",[],{}],"obj":{"k":{"m":false},"k":[null]}}]"#;
    let items = interpret_list_response(200, body).unwrap();
    assert_eq!(items.len(), 1);
    assert_eq!(items[0].id, 1);
    assert_eq!(items[0].item, "a");
    assert_eq!(items[0].title, "A");
}

#[test]
fn unknown_members_do_not_excuse_missing_fields() {
    let body = r#"[{"id":1,"item":"a","extra":"title"}]"#;
    assert!(matches!(
        interpret_list_response(200, body),
        Err(GatewayError::Decode { .. })
    ));
}

#[test]
fn fetch_accepts_id_extremes() {
    let body = r#"[{"id":9223372036854775807,"item":"hi","title":"H"},{"id":-9223372036854775808,"item":"lo","title":"L"}]"#;
    let items = interpret_list_response(200, body).unwrap();
    assert_eq!(items[0].id, i64::MAX);
    assert_eq!(items[1].id, i64::MIN);
}

#[test]
fn malformed_body_is_a_decode_error() {
    for body in [
        "",
        "null",
        "[{",
        r#"{"id":1,"item":"a","title":"A"}"#,
        r#"[{"id":1,"item":"a","title":"A"}"#,
        r#"[{"id":1,"item":"a","title":"A"}] x"#,
        r#"[{"id":1,"item":"a"}]"#,
        r#"[{"id":1,"id":2,"item":"a","title":"A"}]"#,
        r#"[{"id":01,"item":"a","title":"A"}]"#,
        r#"[{"id":1.5,"item":"a","title":"A"}]"#,
        r#"[{"id":9223372036854775808,"item":"a","title":"A"}]"#,
        r#"[{"id":-9223372036854775809,"item":"a","title":"A"}]"#,
        r#"[{"id":1,"item":"a","title":"A"},]"#,
        r#"[{"id":1,"item":"a","title":"A"},{"id":2,"item":"b"}]"#,
        r#"[{"id":1,"item":"\uD800","title":"A"}]"#,
        r#"[{"id":1,"item":"\uDC00","title":"A"}]"#,
        r#"[{"id":1,"item":"\uD83DA","title":"A"}]"#,
        r#"[{"id":1,"item":"\uZZZZ","title":"A"}]"#,
        r#"[{"id":1,"item":"\u00","title":"A"}]"#,
        r#"[{"id":1,"item":"a","title":"A","extra":01}]"#,
        r#"[{"id":1,"item":"a","title":"A","extra":tru}]"#,
        r#"[{"id":1,"item":"a","title":"A","extra":[1,}]"#,
        r#"[{"id":1,"item":"a","title":"A","extra":{"x":}}]"#,
        r#"[{"id":1,"item":"a","title":"A","extra":1.}]"#,
        r#"[{"id":1,"item":"a","title":"A","extra":1e}]"#,
    ] {
        let r = interpret_list_response(200, body);
        match r {
            Err(GatewayError::Decode { message }) => {
                assert_eq!(message, "response body is not a JSON array of items");
            }
            other => panic!("expected a decode error for {:?}, got {:?}", body, other),
        }
    }
}

#[test]
fn non_2xx_fetch_is_a_remote_error_with_the_code() {
    for status in [300u16, 301, 400, 404, 500, 503] {
        let r = interpret_list_response(status, "[]");
        match r {
            Err(e @ GatewayError::Remote { .. }) => {
                let msg = e.message();
                assert!(msg.contains(&status.to_string()), "{}", msg);
            }
            other => panic!("expected a remote error for {}, got {:?}", status, other),
        }
        let d = interpret_delete_response(status);
        match d {
            Err(e @ GatewayError::Remote { .. }) => {
                let msg = e.message();
                assert!(msg.contains(&status.to_string()), "{}", msg);
            }
            other => panic!("expected a remote error for {}, got {:?}", status, other),
        }
    }
}

#[test]
fn status_boundaries() {
    assert!(interpret_list_response(200, "[]").is_ok());
    assert!(interpret_list_response(299, "[]").is_ok());
    assert!(interpret_list_response(199, "[]").is_err());
    assert!(interpret_list_response(300, "[]").is_err());
    assert!(interpret_delete_response(200).is_ok());
    assert!(interpret_delete_response(299).is_ok());
    assert!(interpret_delete_response(199).is_err());
    assert!(interpret_delete_response(300).is_err());
}

#[test]
fn remote_error_carries_the_standard_reason() {
    let r = interpret_list_response(404, "");
    match r {
        Err(e) => {
            assert_eq!(
                e,
                GatewayError::Remote { status: 404, reason: Some(String::from("Not Found")) }
            );
            assert_eq!(e.message(), "HTTP 404: Not Found");
        }
        Ok(_) => panic!("a 404 must not succeed"),
    }
}

#[test]
fn unassigned_status_reads_unknown_error() {
    let r = interpret_delete_response(599);
    match r {
        Err(e) => {
            assert_eq!(e, GatewayError::Remote { status: 599, reason: None });
            assert_eq!(e.message(), "HTTP 599: Unknown error");
        }
        Ok(()) => panic!("a 599 must not succeed"),
    }
}

#[test]
fn missing_reason_phrase_reads_unknown_error() {
    let e = GatewayError::Remote { status: 404, reason: None };
    assert_eq!(e.message(), "HTTP 404: Unknown error");
}

#[test]
fn delete_with_204_succeeds_without_payload() {
    assert_eq!(interpret_delete_response(204), Ok(()));
}

#[test]
fn transport_errors_pass_their_message_through() {
    let e = GatewayError::Transport { message: String::from("connection refused") };
    assert_eq!(e.message(), "connection refused");
    assert!(!matches!(e, GatewayError::Remote { .. }));
}

#[test]
fn decode_error_message_passes_through() {
    let e = GatewayError::Decode { message: String::from("bad body") };
    assert_eq!(e.message(), "bad body");
}

#[test]
fn decode_tolerates_whitespace_between_tokens() {
    let body = " [ { \"id\" : 1 ,\n\t\"item\" : \"a\" , \"title\" : \"A\" } , { \"title\" : \"B\" , \"item\" : \"b\" , \"id\" : 2 } ] ";
    let items = decode_items(body).unwrap();
    assert_eq!(items.len(), 2);
    assert_eq!(items[0].id, 1);
    assert_eq!(items[1].title, "B");
}

#[test]
fn list_url_appends_items() {
    assert_eq!(list_items_url("http://x"), "http://x/items");
    assert_eq!(list_items_url(""), "/items");
}

#[test]
fn delete_url_names_the_item() {
    assert_eq!(delete_item_url("http://x", 7), "http://x/items/7");
    assert_eq!(delete_item_url("http://x", 0), "http://x/items/0");
    assert_eq!(delete_item_url("http://x", -5), "http://x/items/-5");
    assert_eq!(
        delete_item_url("b", i64::MAX),
        "b/items/9223372036854775807"
    );
    assert_eq!(
        delete_item_url("b", i64::MIN),
        "b/items/-9223372036854775808"
    );
}
