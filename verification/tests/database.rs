use rofi_unicode::codepoint::{CodePoint, CodePointError};
use rofi_unicode::config::{UnresolvedContent, UnresolvedItem, UnresolvedItems};
use rofi_unicode::generate::{
    display_name, generate_codepoints, row_text, rows_to_items, write_list, Described,
    GenerateError, Row,
};
use rofi_unicode::text::{chars_of, lines, string_of, to_upper_hex, trim};
use rofi_unicode::ucd::{
    fields, parse_name_alias_line, parse_unicode_data_line, read_name_aliases, read_unicode_data,
    AliasType, FileError, LineError, NameAlias, UnicodeDataLine,
};

fn data(code_point: u32, name: &str) -> UnicodeDataLine {
    UnicodeDataLine { code_point: CodePoint(code_point), name: name.to_owned() }
}

fn alias(code_point: u32, value: &str, ty: AliasType) -> NameAlias {
    NameAlias { code_point: CodePoint(code_point), value: value.to_owned(), ty }
}

const LATIN_A: &str = "0041;LATIN CAPITAL LETTER A;Lu;0;L;;;;;N;;;;0061;";

#[test]
fn lines_agree_with_the_standard_library() {
    for text in ["", "a", "a\n", "a\nb", "a\r\nb\r\n", "\n", "\n\n", "a\r", "a\r\n\r", "\r\n", "x\n\ry\n"] {
        let found: Vec<String> = lines(&chars_of(text)).iter().map(|l| string_of(l)).collect();
        let expected: Vec<String> = text.lines().map(str::to_owned).collect();
        assert_eq!(found, expected, "{text:?}");
    }
}

#[test]
fn trim_agrees_with_the_standard_library() {
    for text in ["", " ", "a", "  a b \t", "\u{a0}x\u{3000}", "\n\r x", "x\u{200b}"] {
        assert_eq!(string_of(&trim(&chars_of(text))), text.trim(), "{text:?}");
    }
}

#[test]
fn upper_hex_pads_to_the_width() {
    assert_eq!(to_upper_hex(0x41, 4), "0041");
    assert_eq!(to_upper_hex(0, 4), "0000");
    assert_eq!(to_upper_hex(0, 0), "0");
    assert_eq!(to_upper_hex(0x1F600, 4), "1F600");
    assert_eq!(to_upper_hex(0xABCDEF, 4), "ABCDEF");
    assert_eq!(to_upper_hex(u32::MAX, 4), "FFFFFFFF");
    assert_eq!(to_upper_hex(0xfff, 4), "0FFF");
    assert_eq!(to_upper_hex(0x10, 1), "10");
    for value in [0u32, 9, 10, 15, 16, 255, 4095, 4096, 65535, 65536, 0x10FFFF] {
        assert_eq!(to_upper_hex(value, 4), format!("{value:04X}"));
    }
}

#[test]
fn fields_are_trimmed() {
    let found: Vec<String> =
        fields(&chars_of(" 0041 ; A;;  b c ")).iter().map(|f| string_of(f)).collect();
    assert_eq!(found, vec!["0041", "A", "", "b c"]);
    let one: Vec<String> = fields(&chars_of("")).iter().map(|f| string_of(f)).collect();
    assert_eq!(one, vec![""]);
}

#[test]
fn unicode_data_line_has_fifteen_fields() {
    assert_eq!(
        parse_unicode_data_line(&chars_of(LATIN_A)),
        Ok(data(0x41, "LATIN CAPITAL LETTER A"))
    );
    assert_eq!(
        parse_unicode_data_line(&chars_of("0041;A;Lu")),
        Err(LineError::FieldCount { expected: 15, found: 3 })
    );
    assert_eq!(
        parse_unicode_data_line(&chars_of("0041;A;;;;;;;;;;;;;;")),
        Err(LineError::FieldCount { expected: 15, found: 16 })
    );
    assert_eq!(
        parse_unicode_data_line(&chars_of("zz;A")),
        Err(LineError::CodePoint(CodePointError::NotHex))
    );
    assert_eq!(
        parse_unicode_data_line(&chars_of("10FFFF;<last>;;;;;;;;;;;;;")),
        Err(LineError::CodePoint(CodePointError::OutOfRange(0x10FFFF)))
    );
}

#[test]
fn name_alias_line_has_three_fields() {
    assert_eq!(
        parse_name_alias_line(&chars_of("0000;NULL;control")),
        Ok(alias(0, "NULL", AliasType::Control))
    );
    assert_eq!(
        parse_name_alias_line(&chars_of("01A2; LATIN CAPITAL LETTER GHA ;correction")),
        Ok(alias(0x1A2, "LATIN CAPITAL LETTER GHA", AliasType::Correction))
    );
    assert_eq!(
        parse_name_alias_line(&chars_of("0080;PAD;figment")),
        Ok(alias(0x80, "PAD", AliasType::Figment))
    );
    assert_eq!(
        parse_name_alias_line(&chars_of("0009;TAB;abbreviation")),
        Ok(alias(9, "TAB", AliasType::Abbreviation))
    );
    assert_eq!(
        parse_name_alias_line(&chars_of("000A;NEW LINE;alternate")),
        Ok(alias(10, "NEW LINE", AliasType::Alternate))
    );
    assert_eq!(
        parse_name_alias_line(&chars_of("0000;NULL")),
        Err(LineError::FieldCount { expected: 3, found: 2 })
    );
    assert_eq!(
        parse_name_alias_line(&chars_of("0000;NULL;control;more")),
        Err(LineError::FieldCount { expected: 3, found: 4 })
    );
    assert_eq!(
        parse_name_alias_line(&chars_of("0000;NULL;Control;more")),
        Err(LineError::AliasType("Control".to_owned()))
    );
    assert_eq!(
        parse_name_alias_line(&chars_of("g;NULL;x;more")),
        Err(LineError::CodePoint(CodePointError::NotHex))
    );
}

#[test]
fn files_skip_comments_and_number_their_lines() {
    let text = "# NameAliases\n\n0000;NULL;control # the first\r\n0009;TAB;abbreviation\n";
    assert_eq!(
        read_name_aliases(text),
        Ok(vec![alias(0, "NULL", AliasType::Control), alias(9, "TAB", AliasType::Abbreviation)])
    );
    assert_eq!(
        read_name_aliases("# c\n0000;NULL;control\n\n0009;TAB\n0000;x"),
        Err(FileError { line: 4, error: LineError::FieldCount { expected: 3, found: 2 } })
    );
    assert_eq!(read_name_aliases(""), Ok(Vec::new()));
    let both = format!("{LATIN_A}\n# comment\n0042;B;;;;;;;;;;;;;\n");
    assert_eq!(read_unicode_data(&both), Ok(vec![data(0x41, "LATIN CAPITAL LETTER A"), data(0x42, "B")]));
    assert_eq!(
        read_unicode_data(" \n"),
        Err(FileError { line: 1, error: LineError::CodePoint(CodePointError::NotHex) })
    );
}

#[test]
fn code_points_take_their_corrections_and_other_names() {
    let lines = vec![
        data(0x0, "<control>"),
        data(0x9, "<control>"),
        data(0x41, "LATIN CAPITAL LETTER A"),
        data(0x1A2, "LATIN CAPITAL LETTER OI"),
        data(0x3400, "<CJK Ideograph Extension A, First>"),
        data(0xD800, "<Non Private Use High Surrogate, First>"),
    ];
    let aliases = vec![
        alias(0x0, "NULL", AliasType::Control),
        alias(0x0, "NUL", AliasType::Abbreviation),
        alias(0x9, "CHARACTER TABULATION", AliasType::Control),
        alias(0x9, "HORIZONTAL TABULATION", AliasType::Control),
        alias(0x9, "HT", AliasType::Abbreviation),
        alias(0x9, "TAB", AliasType::Abbreviation),
        alias(0x1A2, "LATIN CAPITAL LETTER GHA", AliasType::Correction),
    ];
    assert_eq!(
        generate_codepoints(&lines, &aliases),
        Ok(vec![
            Described {
                code_point: CodePoint(0),
                unescaped: "U+0000\t \tNULL".to_owned(),
                alternates: "NUL".to_owned(),
            },
            Described {
                code_point: CodePoint(9),
                unescaped: "U+0009\t \tHORIZONTAL TABULATION".to_owned(),
                alternates: "HT | TAB".to_owned(),
            },
            Described {
                code_point: CodePoint(0x41),
                unescaped: "U+0041\tA\tLATIN CAPITAL LETTER A".to_owned(),
                alternates: String::new(),
            },
            Described {
                code_point: CodePoint(0x1A2),
                unescaped: "U+01A2\t\u{1A2}\tLATIN CAPITAL LETTER GHA".to_owned(),
                alternates: String::new(),
            },
        ])
    );
}

#[test]
fn surrogate_with_a_name_is_listed_with_a_space() {
    assert_eq!(
        generate_codepoints(&vec![data(0xD800, "HIGH")], &Vec::new()),
        Ok(vec![Described {
            code_point: CodePoint(0xD800),
            unescaped: "U+D800\t \tHIGH".to_owned(),
            alternates: String::new(),
        }])
    );
}

#[test]
fn alias_without_its_code_point_is_refused() {
    let lines = vec![data(0x41, "A"), data(0x43, "C")];
    let aliases = vec![alias(0x42, "BEE", AliasType::Alternate)];
    assert_eq!(
        generate_codepoints(&lines, &aliases),
        Err(GenerateError::AliasWithoutCodePoint(CodePoint(0x43)))
    );
    assert_eq!(generate_codepoints(&Vec::new(), &aliases), Ok(Vec::new()));
    assert_eq!(
        generate_codepoints(&vec![data(0x41, "A")], &aliases),
        Ok(vec![Described {
            code_point: CodePoint(0x41),
            unescaped: "U+0041\tA\tA".to_owned(),
            alternates: String::new(),
        }])
    );
}

#[test]
fn display_name_shows_other_names_in_small_print() {
    assert_eq!(display_name("U+0041\tA\tA &amp; B", ""), "U+0041\tA\tA &amp; B");
    assert_eq!(
        display_name("U+0009\t \tTAB", "HT | &lt;x&gt;"),
        "U+0009\t \tTAB (<small>HT | &lt;x&gt;</small>)"
    );
}

#[test]
fn list_is_written_between_braces() {
    assert_eq!(write_list(&Vec::new()), "{\n}\n");
    let rows = vec![
        Row { name: "U+0041\tA\tLATIN \"A\"".to_owned(), code_point: CodePoint(0x41) },
        Row { name: "U+1F600\t\u{1F600}\tGRIN".to_owned(), code_point: CodePoint(0x1F600) },
    ];
    assert_eq!(
        write_list(&rows),
        "{\n\t\"U+0041\\tA\\tLATIN \\\"A\\\"\": \"\\u{0041}\",\n\t\"U+1F600\\t\\u{1f600}\\tGRIN\": \"\\u{1F600}\",\n}\n"
    );
}

#[test]
fn row_is_written_with_the_name_given() {
    assert_eq!(row_text("U+0041\\tA", CodePoint(0x41)), "\t\"U+0041\\tA\": \"\\u{0041}\",\n");
    assert_eq!(row_text("", CodePoint(0x10FFFF)), "\t\"\": \"\\u{10FFFF}\",\n");
}

#[test]
fn rows_copy_their_characters() {
    let rows = vec![
        Row { name: "U+0041\tA\tLATIN".to_owned(), code_point: CodePoint(0x41) },
        Row { name: "U+D800\t \tHIGH".to_owned(), code_point: CodePoint(0xD800) },
        Row { name: "U+0009\t \tTAB".to_owned(), code_point: CodePoint(0x9) },
        Row { name: "U+110000\t \tBEYOND".to_owned(), code_point: CodePoint(0x110000) },
        Row { name: "U+1F600\t\u{1F600}\tGRIN".to_owned(), code_point: CodePoint(0x1F600) },
    ];
    let item = |name: &str, text: &str| UnresolvedItem {
        name: name.to_owned(),
        content: UnresolvedContent::Text(text.to_owned()),
    };
    assert_eq!(
        rows_to_items(rows),
        UnresolvedItems {
            extends: Vec::new(),
            direct: vec![
                item("U+0041\tA\tLATIN", "A"),
                item("U+0009\t \tTAB", "\t"),
                item("U+1F600\t\u{1F600}\tGRIN", "\u{1F600}"),
            ],
        }
    );
    assert_eq!(
        rows_to_items(Vec::new()),
        UnresolvedItems { extends: Vec::new(), direct: Vec::new() }
    );
}
