use askalono::preproc::{
    apply_aggressive, apply_normalizers, lcs_substr, normalize_horizontal_whitespace,
    normalize_unicode, remove_common_tokens,
    trim, trim_byte_adjusted,
};

#[test]
fn trim_byte_adjusted_respects_multibyte_characters() {
    let input = "RustКраб橙蟹🦀";
    let expected = [
        "",
        "R",
        "Ru",
        "Rus",
        "Rust",
        "Rust",
        "RustК",
        "RustК",
        "RustКр",
        "RustКр",
        "RustКра",
        "RustКра",
        "RustКраб",
        "RustКраб",
        "RustКраб",
        "RustКраб橙",
        "RustКраб橙",
        "RustКраб橙",
        "RustКраб橙蟹",
        "RustКраб橙蟹",
        "RustКраб橙蟹",
        "RustКраб橙蟹",
        "RustКраб橙蟹🦀",
    ];

    for (i, &outcome) in expected.iter().enumerate() {
        assert_eq!(outcome, trim_byte_adjusted(input, i))
    }
}

#[test]
fn greatest_substring_removal() {
    // the funky string syntax \n\ is to add a newline but skip the
    // leading whitespace in the source code
    let text = "%%Copyright: Copyright\n\
                %%Copyright: All rights reserved.\n\
                %%Copyright: Redistribution and use in source and binary forms, with or\n\
                %%Copyright: without modification, are permitted provided that the\n\
                %%Copyright: following conditions are met:\n\
                \n\
                abcd";

    let new_text = remove_common_tokens(text.into());
    println!("{}", new_text);

    // the prefix leads 4 line pairs, counted 5 times over 7 lines: short of
    // four fifths, so the text stays as it is
    assert_eq!(new_text, text, "a prefix under four fifths of the lines is kept");
}

#[test]
fn greatest_substring_removal_at_four_fifths() {
    let text = "%%Copyright: Copyright\n\
                %%Copyright: All rights reserved.\n\
                %%Copyright: Redistribution and use in source and binary forms, with or\n\
                %%Copyright: without modification, are permitted provided that the\n\
                %%Copyright: following conditions are met:";

    // counted 5 times over 5 lines
    let new_text = remove_common_tokens(text);
    assert!(
        !new_text.contains("%%Copyright"),
        "new text shouldn't contain the common substring"
    );
    assert!(new_text.starts_with("Copyright\nAll rights reserved."));
}

#[test]
fn prefix_below_four_fifths_is_kept() {
    // counted 2 times over 3 lines, under 2.4
    assert_eq!(remove_common_tokens("abcd\nabcd\nz"), "abcd\nabcd\nz");
    // counted 4 times over 4 lines
    assert_eq!(remove_common_tokens("abcd x\nabcd y\nabcd z\nabcd w"), "x\ny\nz\nw");
}

#[test]
fn fraction_slash_is_horizontal_space_and_digits_stay() {
    assert_eq!(normalize_horizontal_whitespace("1\u{2044}2 and 44"), "1 2 and 44");
    // in the whole pass the junk filter drops the slash first, a symbol
    assert_eq!(apply_normalizers("1\u{2044}2 and 44")[0], "12 and 44");
}

#[test]
fn greatest_substring_removal_keep_inner() {
    let text = "this string should still have\n\
                this word -> this <- in it even though\n\
                this is still the most common word";
    let new_text = remove_common_tokens(text.into());
    println!("-- {}", new_text);
    // the "this" at the start of the line can be discarded...
    assert!(!new_text.contains("\nthis"));
    // ...but the "this" in the middle of sentences shouldn't be
    assert!(new_text.contains("this"));

    let text = "aaaa bbbb cccc dddd\n\
                eeee ffff aaaa gggg\n\
                hhhh iiii jjjj";
    let new_text = remove_common_tokens(text.into());
    println!("-- {}", new_text);
    assert!(new_text.contains("aaaa")); // similar to above test
}

#[test]
fn greatest_substring_removal_42() {
    let text = "AAAAAA line 1\n\
                AAAAAA another line here\n\
                AAAAAA yet another line here\n\
                AAAAAA how long will this go on\n\
                AAAAAA another line here\n\
                AAAAAA more\n\
                AAAAAA one more\n\
                AAAAAA two more\n\
                AAAAAA three more\n\
                AAAAAA four more\n\
                AAAAAA five more\n\
                AAAAAA six more\n\
                \n\
                preserve\n\
                keep";
    let new_text = remove_common_tokens(text.into());
    println!("{}", new_text);

    assert!(new_text.contains("preserve"));
    assert!(new_text.contains("keep"));
    assert!(!new_text.contains("AAAAAA"));
}

#[test]
fn normalize_no_line_mangle() {
    let text = "some license

        copyright 2012 person

        \tlicense\r
        text

        \t



        goes
        here";

    let text_lines = text.lines().count();

    let normalized = apply_normalizers(text);
    let normalized_lines = normalized.len();

    assert_eq!(
        text_lines, normalized_lines,
        "normalizers shouldnt change line counts"
    );
}

#[test]
fn normalize_keeps_line_count_with_trailing_newline() {
    let text = "a\n\nb\n";
    assert_eq!(apply_normalizers(text).len(), text.split('\n').count());
    assert_eq!(apply_normalizers("").len(), 1);
}

#[test]
fn normalize_rewrites_punctuation_and_urls() {
    let lines = apply_normalizers("  \u{201c}quoted\u{201d} \u{2014} see https://example.com/x  \n\u{a9} 2018");
    // quotes and dashes are unified, the address is blackboxed and its
    // slashes count as horizontal space
    assert_eq!(lines[0], "'quoted' - see http: blackboxed url");
    // the copyright sign is a symbol, which the junk filter drops
    assert_eq!(lines[1], "2018");
}

#[test]
fn aggressive_strips_title_and_copyright() {
    let out = apply_aggressive("The MIT License\n\nCopyright (c) 2018 me\n\nPermission is hereby granted.");
    assert_eq!(out, "permission is hereby granted");
}

#[test]
fn common_prefix_of_lines() {
    assert_eq!(lcs_substr(" * hello there", " * hello world"), "* hello");
    assert_eq!(lcs_substr("abc", "xyz"), "");
    assert_eq!(trim("  a b \t"), "a b");
}

#[test]
fn common_prefix_below_threshold_is_kept() {
    let text = "// one\n// two\nthree\nfour\nfive";
    assert_eq!(remove_common_tokens(text), text);
}

#[test]
fn unicode_is_composed() {
    assert_eq!(normalize_unicode("e\u{301}"), "\u{e9}");
}
