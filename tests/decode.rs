use ffwx::codec::{write_output, DelimiterProfile};
use ffwx::decode::{decode, plain_script, plain_text, DecodeError};
use ffwx::engine::{compute_diff, DiffKind};
use ffwx::reconstruct::apply;

fn lines(s: &[&str]) -> Vec<String> {
    s.iter().map(|x| x.to_string()).collect()
}

#[test]
fn decode_reads_compact_records() {
    let text = "~ x\u{1F489}a\u{1F52C}\u{1F52D}\u{1F52C}c\n+ c\u{1F489}b\u{1F52C}\u{1F52D}\n".to_string();
    let d = decode(&text).unwrap();
    assert_eq!(d.len(), 2);
    assert_eq!(d[0].kind, DiffKind::Changed);
    assert_eq!(d[0].value, "x");
    assert_eq!(d[0].ctx.before, lines(&["a"]));
    assert_eq!(d[0].ctx.after, lines(&["c"]));
    assert_eq!(d[1].kind, DiffKind::Added);
    assert_eq!(d[1].value, "c");
    assert_eq!(d[1].ctx.before, lines(&["b"]));
    assert!(d[1].ctx.after.is_empty());
}

#[test]
fn decode_empty_text_is_empty_script() {
    assert_eq!(decode(&String::new()).unwrap().len(), 0);
}

#[test]
fn decode_inverts_compact_encoding() {
    let pairs: Vec<(Vec<String>, Vec<String>)> = vec![
        (lines(&["a", "b", "c"]), lines(&["a", "x", "c"])),
        (lines(&["a", "b"]), lines(&["a", "b", "c"])),
        (Vec::new(), lines(&["a"])),
        (lines(&["", "b", ""]), lines(&["", "", "d", "e"])),
        (lines(&["p", "a", "q"]), lines(&["p", "b", "c", "q"])),
    ];
    for (s, m) in pairs {
        let script = compute_diff(s.clone(), m.clone());
        let text = write_output(&script, &DelimiterProfile::compact()).unwrap();
        let back = decode(&text).unwrap();
        assert_eq!(back.len(), script.len());
        for (a, b) in script.iter().zip(back.iter()) {
            assert_eq!(a.kind, b.kind);
            assert_eq!(a.value, b.value);
            assert_eq!(a.ctx.before, b.ctx.before);
            assert_eq!(a.ctx.after, b.ctx.after);
        }
        assert_eq!(write_output(&back, &DelimiterProfile::compact()).unwrap(), text);
        assert_eq!(apply(&s, &back), Ok(m));
    }
}

#[test]
fn decode_rejects_text_after_last_newline() {
    let text = "+ a\u{1F489}\u{1F52D}".to_string();
    assert_eq!(decode(&text).unwrap_err(), DecodeError::Unterminated);
}

#[test]
fn decode_rejects_unknown_header() {
    let text = "+ a\u{1F489}\u{1F52D}\n? b\u{1F489}\u{1F52D}\n".to_string();
    assert_eq!(decode(&text).unwrap_err(), DecodeError::Malformed { record: 1 });
}

#[test]
fn decode_rejects_missing_markers() {
    assert_eq!(decode(&"+ a\n".to_string()).unwrap_err(), DecodeError::Malformed { record: 0 });
    assert_eq!(
        decode(&"+ a\u{1F489}b\n".to_string()).unwrap_err(),
        DecodeError::Malformed { record: 0 }
    );
    assert_eq!(
        decode(&"+ a\u{1F489}b\u{1F52D}\n".to_string()).unwrap_err(),
        DecodeError::Malformed { record: 0 }
    );
    assert_eq!(decode(&"+\n".to_string()).unwrap_err(), DecodeError::Malformed { record: 0 });
}

#[test]
fn marker_characters_are_not_plain() {
    assert!(plain_text(&"ordinary text".to_string()));
    assert!(plain_text(&String::new()));
    assert!(!plain_text(&"a\u{1F52C}b".to_string()));
    assert!(!plain_text(&"a\u{1F489}".to_string()));
    assert!(!plain_text(&"\u{1F52D}".to_string()));
    assert!(!plain_text(&"a\nb".to_string()));
    let ok = compute_diff(lines(&["a", "b"]), lines(&["a", "c"]));
    assert!(plain_script(&ok));
    let bad = compute_diff(lines(&["a", "b"]), lines(&["a", "c\u{1F489}"]));
    assert!(!plain_script(&bad));
    let bad_ctx = compute_diff(lines(&["\u{1F52D}", "b"]), lines(&["\u{1F52D}", "c"]));
    assert!(!plain_script(&bad_ctx));
}
