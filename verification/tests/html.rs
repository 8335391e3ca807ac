use simplealbum::html::{encode_component, encode_rel_path, escape_html, origin_of};

#[test]
fn escape_html_neutralises_markup_and_quotes() {
    assert_eq!(
        escape_html("<img src=\"x\" onerror='y'>&"),
        "&lt;img src=&quot;x&quot; onerror=&#39;y&#39;&gt;&amp;"
    );
    assert_eq!(escape_html("Bob & Karen"), "Bob &amp; Karen");
}

#[test]
fn escaping_keeps_different_texts_apart() {
    let texts = ["&", "&amp;", "<", "&lt;", "\"", "'", "a<b", "a&lt;b", ""];
    for a in texts {
        let escaped = escape_html(a);
        assert!(!escaped.contains(['<', '>', '"', '\'']), "{a}");
        for b in texts {
            assert_eq!(escape_html(a) == escape_html(b), a == b, "{a} and {b}");
        }
    }
}

#[test]
fn encode_component_matches_encode_uri_component() {
    let uri = |s: &str| -> String {
        s.bytes()
            .map(|b| {
                if b.is_ascii_alphanumeric() || b"-_.~!*'()".contains(&b) {
                    (b as char).to_string()
                } else {
                    format!("%{:02X}", b)
                }
            })
            .collect()
    };
    for value in [
        "summer holiday",
        "a/b",
        "Bob & Karen's",
        "(1970) beach!",
        "caf\u{e9}",
        "100%_sure*",
    ] {
        assert_eq!(encode_component(value), uri(value), "mismatch for {value:?}");
    }
    // Separators are structural in a relative path and must survive.
    assert_eq!(
        encode_rel_path("1970-79/summer holiday/a b.jpg"),
        "1970-79/summer%20holiday/a%20b.jpg"
    );
}

#[test]
fn encoding_keeps_different_values_apart() {
    assert_eq!(encode_component("caf\u{e9}"), "caf%C3%A9");
    assert_eq!(encode_component("%41"), "%2541");
    assert_ne!(encode_component("%41"), encode_component("A"));
    assert_eq!(encode_rel_path("a//b/"), "a//b/");
}

#[test]
fn origin_of_strips_the_path_and_keeps_scheme_and_host() {
    assert_eq!(origin_of("https://www.example.org/photos/"), "https://www.example.org");
    assert_eq!(origin_of("http://localhost:8443/"), "http://localhost:8443");
    assert_eq!(origin_of("https://example.org"), "https://example.org");
}

#[test]
fn an_origin_without_a_scheme_ends_at_the_first_slash() {
    assert_eq!(origin_of("example.org/a/b"), "example.org");
    assert_eq!(origin_of(""), "");
    assert_eq!(origin_of("/"), "");
}

#[test]
fn escaped_text_reads_back_and_joins() {
    let unescape = |s: &str| {
        s.replace("&lt;", "<")
            .replace("&gt;", ">")
            .replace("&quot;", "\"")
            .replace("&#39;", "'")
            .replace("&amp;", "&")
    };
    let texts = ["", "a&b", "&amp;lt;", "<'\">", "caf\u{e9} & co"];
    for a in texts {
        assert_eq!(unescape(&escape_html(a)), a);
        for b in texts {
            assert_eq!(escape_html(&format!("{a}{b}")), escape_html(a) + &escape_html(b));
        }
    }
}

#[test]
fn encoded_values_decode_and_join() {
    let decode = |s: &str| {
        let bytes = s.as_bytes();
        let mut out: Vec<u8> = Vec::new();
        let mut i = 0;
        while i < bytes.len() {
            if bytes[i] == b'%' {
                out.push(u8::from_str_radix(&s[i + 1..i + 3], 16).unwrap());
                i += 3;
            } else {
                out.push(bytes[i]);
                i += 1;
            }
        }
        String::from_utf8(out).unwrap()
    };
    let values = ["", "100%", "%41", "a b/c", "caf\u{e9}", "\u{1f4f7}.jpg"];
    for a in values {
        assert!(encode_component(a).is_ascii());
        assert_eq!(decode(&encode_component(a)), a);
        for b in values {
            assert_eq!(
                encode_component(&format!("{a}{b}")),
                encode_component(a) + &encode_component(b)
            );
        }
    }
    assert_eq!(encode_component("\u{1f4f7}"), "%F0%9F%93%B7");
}
