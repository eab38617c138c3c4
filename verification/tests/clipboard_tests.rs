use soyjot::clipboard::Clipboard;
use soyjot::clipboard::Data;
use soyjot::error::extract_error_msg;
use soyjot::error::public_error;
use soyjot::error::StoreError;
use soyjot::html::code;
use soyjot::html::para;
use soyjot::html::wrap_html;
use soyjot::html::FOOTER;
use soyjot::html::HEADER;
use soyjot::resp::ResponsePlain;

#[test]
fn clipboard_test_store_debug() {
    let mem_str = Clipboard::Mem(Data("foo".as_bytes().to_vec()));
    assert_eq!(r#""mem":"foo""#, mem_str.debug_string());

    let persist_bin = Clipboard::Persist(Data(vec![14, 16, 200]));
    assert_eq!(r#""persist":"[14, 16, 200]"#, persist_bin.debug_string());

    // Valid UTF-8 byte array should be formatted as string
    let mem_str_vec = Clipboard::Mem(Data("bar".as_bytes().to_vec()));
    assert_eq!(r#""mem":"bar""#, mem_str_vec.debug_string());
}

#[test]
fn test_display_store() {
    let mem_str = Clipboard::Mem(Data("foo".as_bytes().to_vec()));
    assert_eq!(r#""mem":"foo""#, mem_str.debug_string());

    let persist_bin = Clipboard::Persist(Data(vec![14, 16, 200]));
    assert_eq!(r#""persist":"[14, 16, 200]"#, persist_bin.debug_string());

    // Valid UTF-8 byte array should be formatted as string
    let mem_str_vec = Clipboard::Mem(Data("foo".bytes().collect::<Vec<u8>>()));
    assert_eq!(r#""mem":"foo""#, mem_str_vec.debug_string());
}

#[test]
fn store_test_store_debug() {
    let mem_str = Clipboard::Mem(Data("foo".as_bytes().to_vec()));
    assert_eq!(r#""mem":"foo""#, mem_str.debug_string());

    let persist_bin = Clipboard::Persist(Data(vec![14, 16, 200]));
    assert_eq!(r#""persist":"[14, 16, 200]"#, persist_bin.debug_string());

    // Valid UTF-8 byte array should be formatted as string
    let mem_str_vec = Clipboard::Mem(Data("bar".as_bytes().to_vec()));
    assert_eq!(r#""mem":"bar""#, mem_str_vec.debug_string());
}

#[test]
fn test_html() {
    assert_eq!(para("foo"), "<p>foo</p>".to_string());
    assert_eq!(para(code("foo").as_str()), "<p><code>foo</code></p>".to_string());
}

#[test]
fn test_wrap_html() {
    let wrapped = wrap_html("<p>hi</p>");
    assert_eq!(wrapped, format!("{}{}{}", HEADER, "<p>hi</p>", FOOTER));
}

#[test]
fn test_clipboard_kinds() {
    let c = Clipboard::new("persist");
    assert_eq!(c.key(), "persist");
    assert!(c.is_empty());

    let c = Clipboard::new("mem");
    assert_eq!(c.key(), "mem");

    // anything but "persist" selects the in-memory kind
    let c = Clipboard::new_with_data("junk", Data(b"xyz".to_vec()));
    assert_eq!(c.key(), "mem");
    assert!(!c.is_empty());
    assert_eq!(c.bytes(), b"xyz");
    assert!(c.is_implemented().is_ok());
}

#[test]
fn test_debug_string_single_and_large_bytes() {
    // one byte, two digits; invalid UTF-8 keeps the bracketed form open
    let c = Clipboard::Mem(Data(vec![0xff]));
    assert_eq!(r#""mem":"[255]"#, c.debug_string());

    let c = Clipboard::Persist(Data(vec![0, 7]));
    // 0x00 and 0x07 are valid (control-character) UTF-8, so they decode
    assert_eq!("\"persist\":\"\u{0}\u{7}\"", c.debug_string());

    let c = Clipboard::Persist(Data(vec![200, 9, 35]));
    assert_eq!(r#""persist":"[200, 9, 35]"#, c.debug_string());
}

#[test]
fn test_error_messages() {
    assert_eq!(extract_error_msg(StoreError::Empty), "empty clipboard sent");
    assert_eq!(extract_error_msg(StoreError::NoSuch), "no such clipboard");
    assert_eq!(extract_error_msg(StoreError::InvalidUtf8), "bad utf-8");
    assert_eq!(
        extract_error_msg(StoreError::NotImplemented("x".to_string())),
        "not implemented"
    );
    assert_eq!(extract_error_msg(StoreError::Bug("x".to_string())), "actix-drop bug");
    // filesystem errors are never shown to clients
    assert_eq!(
        extract_error_msg(StoreError::IoError("disk on fire".to_string())),
        "actix-drop bug"
    );
    assert!(public_error(StoreError::IoError("e".to_string())).is_none());
    assert!(public_error(StoreError::Empty).is_some());
}

#[test]
fn test_response_plain() {
    let body = ResponsePlain::format_err("abcd", StoreError::Empty);
    assert_eq!(body, "error for clipboard abcd: empty clipboard sent");

    let ack = ResponsePlain(Ok(None)).post_clipboard("beef");
    assert_eq!(ack, "clipboard beef created and available at /api/drop/beef");

    let err = ResponsePlain(Err(StoreError::IoError("nope".to_string()))).post_clipboard("beef");
    assert_eq!(err, "error for clipboard beef: actix-drop bug");
}

#[test]
fn test_response_html_bodies() {
    assert_eq!(
        soyjot::resp::html_format_err("beef", StoreError::NoSuch),
        "<p>Error for clipboard beef: no such clipboard</p>"
    );
    assert_eq!(
        soyjot::resp::html_post_error("beef", StoreError::IoError("x".to_string())),
        "<p>Error saving clipboard beef: actix-drop bug</p>"
    );
    assert_eq!(
        soyjot::resp::html_post_saved("beef"),
        "<p>Clipboard with hash <code>beef</code> created</p>\
         <p>The clipboard is now available at path \
         <a href=\"/app/drop/beef\"><code>/app/drop/beef</code></a></p>"
    );
}

#[test]
fn test_config_default() {
    let conf = soyjot::config::AppConfig::default();
    assert_eq!(conf.dir.as_deref(), Some("./drop"));
    assert_eq!(conf.http_addr.as_deref(), Some("127.0.0.1"));
    assert_eq!(conf.http_port, Some(8080));
    assert_eq!(conf.timeout, Some(15));
}
