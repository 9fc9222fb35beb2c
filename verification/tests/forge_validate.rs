use tei_fabric::forge::sandbox::profile;
use tei_fabric::forge::validate::{
    strip_strings_and_line_comments, validate, DENYLIST, ESCAPE_ENTRY, MAX_SOURCE_BYTES,
};

#[test]
fn accepts_a_clean_app_body() {
    let ok = r#"
            // race the hash on every substrate, dispatch the winner
            let cpu = tei.run_on("cpu", PRIMITIVE_HASH).await;
            let dma = tei.run_on("dma-sniffer", PRIMITIVE_HASH).await;
            tei.check(cpu.result, dma.result);
            tei.dispatch(PRIMITIVE_HASH);
            tei.sleep_ms(1000).await;
        "#;
    assert!(validate(ok).is_ok(), "{:?}", validate(ok));
}

#[test]
fn rejects_each_denied_construct() {
    let cases = [
        "unsafe { *(0 as *mut u32) = 1; }",
        "core::arch::asm!(\"nop\");",
        "let _ = include_bytes!(\"/etc/passwd\");",
        "let _ = include_str!(\"/etc/passwd\");",
        "include!(\"/tmp/evil.rs\");",
        "let _ = env!(\"HOME\");",
        "let _ = option_env!(\"SECRET\");",
        "extern crate alloc;",
        "std::process::exit(0);",
        "let x: ::std::vec::Vec<u8> = ::std::vec::Vec::new();",
        "#[no_mangle] fn x() {}",
        "#[unsafe(link_section=\".x\")] static X: u8 = 0;",
    ];
    for c in cases {
        assert!(validate(c).is_err(), "should reject: {c}");
    }
}

#[test]
fn the_word_unsafe_in_a_comment_or_string_is_fine() {
    assert!(validate("// this is safe, not unsafe\nlet x = 1;").is_ok());
    assert!(validate(r#"tei.log("running unsafe-free pass");"#).is_ok());
}

#[test]
fn rejects_oversize() {
    let big = "a".repeat(MAX_SOURCE_BYTES + 1);
    assert!(validate(&big).is_err());
}

#[test]
fn rejects_unicode_escape_even_split_intent() {
    assert!(validate(r#"let _ = "\u{75}";"#).is_err());
}

#[test]
fn profile_denies_network_and_allows_listed_writes() {
    let d = "/tmp/forge-xyz";
    let prof = profile(&[d]);
    assert!(prof.contains("(deny network*)"));
    assert!(prof.contains("(deny default)"));
    assert!(prof.contains("/tmp/forge-xyz"));
    assert!(prof.contains("(allow file-read*)"));
}

#[test]
fn every_complaint_is_exact() {
    let big = "a".repeat(MAX_SOURCE_BYTES + 1);
    assert_eq!(
        validate(&big).unwrap_err(),
        "app source is 16385 bytes; the limit is 16384 bytes"
    );
    assert!(validate(&"a".repeat(MAX_SOURCE_BYTES)).is_ok());
    assert_eq!(
        validate(r"// \u{75}").unwrap_err(),
        "`\\u{…}` escapes are not allowed (they can defeat the safety scan)"
    );
    assert_eq!(
        validate("let b = build_rs;").unwrap_err(),
        "`build_rs` is not allowed: no user build scripts; deps are fixed"
    );
    // the list is scanned in its order, not the order of the text
    assert_eq!(
        validate("asm!(); unsafe").unwrap_err(),
        "`unsafe` is not allowed: raw memory / FFI — out of the safe app surface"
    );
    for (k, (needle, why)) in DENYLIST.iter().enumerate() {
        if k == ESCAPE_ENTRY {
            assert_eq!(*needle, "\\u{");
            continue;
        }
        let m = validate(needle).unwrap_err();
        // a needle that holds an earlier one is reported as the earlier one
        let first = DENYLIST
            .iter()
            .enumerate()
            .find(|(i, (n, _))| *i != ESCAPE_ENTRY && needle.contains(n))
            .unwrap()
            .1;
        assert_eq!(m, format!("`{}` is not allowed: {}", first.0, first.1));
        assert!(!why.is_empty());
    }
}

#[test]
fn stripping_keeps_code_and_drops_the_rest() {
    assert_eq!(strip_strings_and_line_comments("a // b\nc"), "a \nc");
    assert_eq!(strip_strings_and_line_comments("f(\"x\\\"y\")z"), "f(  )z");
    // a raw literal has no escapes: the code after it stays in sight
    assert_eq!(strip_strings_and_line_comments("r\"\\\";q"), "r  ;q");
    assert!(validate("let p = r\"\\\"; unsafe").is_err());
    // an open literal runs to the end
    assert_eq!(strip_strings_and_line_comments("a\"bc"), "a  ");
    assert_eq!(strip_strings_and_line_comments("a\"b\\"), "a  ");
    // one character per byte
    assert_eq!(strip_strings_and_line_comments("é"), "\u{c3}\u{a9}");
    assert_eq!(strip_strings_and_line_comments(""), "");
    assert_eq!(strip_strings_and_line_comments("a/b"), "a/b");
}

#[test]
fn block_comments_stay_and_hide_nothing() {
    for kept in [
        "/* // */ unsafe",
        "/* \" */ unsafe /* \" */",
        "/* a /* b // */ \" */ c",
        "a /* open // \" ",
        "/*/ x */",
    ] {
        assert_eq!(strip_strings_and_line_comments(kept), kept);
    }
    assert_eq!(strip_strings_and_line_comments("/* x */// y\nz"), "/* x */\nz");
    assert_eq!(strip_strings_and_line_comments("/* x */\"y\""), "/* x */  ");
    assert_eq!(strip_strings_and_line_comments("// /* a\nb"), "\nb");
    assert_eq!(strip_strings_and_line_comments("\"/*\" // b"), "   ");
    assert!(validate("/* // */ unsafe").is_err());
    assert!(validate("/* \" */ unsafe").is_err());
    // a word in a block comment is a conservative reject
    assert!(validate("/* unsafe */ let x = 1;").is_err());
    assert!(validate("/* plain */ let x = 1;").is_ok());
}

#[test]
fn character_literals_stay_and_hide_nothing() {
    for kept in [
        "'\"'unsafe",
        "'\\\"'unsafe",
        "b'\"' unsafe",
        "'\\'' unsafe '\"'",
        "'\\\\' 'x' '\\x22' '/'/2",
        "fn f<'a>(x: &'a u8) -> &'a u8",
        "'a: loop",
        "''",
        "'\\",
    ] {
        assert_eq!(strip_strings_and_line_comments(kept), kept);
    }
    assert_eq!(strip_strings_and_line_comments("'a \"b\" 'c'"), "'a    'c'");
    assert_eq!(strip_strings_and_line_comments("'//x"), "'");
    // four bytes and an apostrophe on either side
    let out = strip_strings_and_line_comments("'é'\"x\"'😀'\"y\"z");
    assert_eq!(out.chars().count(), 4 + 2 + 6 + 2 + 1);
    assert!(validate("let c = '\"'; unsafe { }").is_err());
    assert!(validate("let c = '\"'; let d = \"unsafe\";").is_ok());
}

#[test]
fn hashed_raw_literals_close_with_their_hashes() {
    assert_eq!(strip_strings_and_line_comments("r#\"a\"b\"#c"), "r#  c");
    assert_eq!(strip_strings_and_line_comments("br##\"a\"#b\"##c"), "br##  c");
    assert_eq!(strip_strings_and_line_comments("r#\"\\\"# unsafe"), "r#   unsafe");
    assert_eq!(strip_strings_and_line_comments("r#\"open\" x"), "r#  ");
    assert_eq!(strip_strings_and_line_comments("#\"a\\\"b\"c"), "#  c");
    assert!(validate("let s = r#\"\\\"#; unsafe { }").is_err());
    assert!(validate("let s = r#\"say \"unsafe\"\"#;").is_ok());
}

#[test]
fn literals_and_last_comments_never_decide() {
    for (x, y) in [("unsafe", "calm__"), ("std::", "a // ")] {
        for tail in ["", " unsafe", " // z"] {
            let one = format!("f(\"{x}\"){tail}");
            let two = format!("f(\"{y}\"){tail}");
            assert_eq!(validate(&one), validate(&two));
        }
    }
    for s in ["let x = 1;", "unsafe", "a/", "f(\"open", "// c", "/* x */"] {
        assert_eq!(validate(&format!("{s}// unsafe")), validate(s));
    }
}

#[test]
fn stripping_settles_on_text() {
    for s in ["'//x\n'y", "'\\x//\nab'", "a \"b\" // c\nd /* \" */ e", "//x", "r\"\\\"y", "a/b*c", "/* *//* */"] {
        let out = strip_strings_and_line_comments(s);
        assert_eq!(strip_strings_and_line_comments(&out), out);
    }
}

#[test]
fn the_profile_text_is_exact() {
    let base = "(version 1)\n(deny default)\n(allow process-fork)\n(allow process-exec)\n\
                (allow sysctl-read)\n(allow mach-lookup)\n(allow signal (target self))\n\
                (allow file-read*)\n(deny network*)\n";
    assert_eq!(profile(&[]), base);
    assert_eq!(
        profile(&["/a", "/b c"]),
        format!("{base}(allow file-write* (subpath \"/a\"))\n(allow file-write* (subpath \"/b c\"))\n")
    );
}
