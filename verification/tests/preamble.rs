use lfr_parser::preamble::add_preamble;

#[test]
fn preamble_names_the_tool_and_silences_the_lint() {
    assert_eq!(
        add_preamble("pub enum SyntaxKind {}", "sourcegen_ast"),
        "// This file was generated by sourcegen_ast.\n\n#![allow(unused_imports)]\n\npub enum SyntaxKind {}\n"
    );
}

#[test]
fn preamble_of_an_empty_file_is_the_header_alone() {
    assert_eq!(
        add_preamble("", ""),
        "// This file was generated by .\n\n#![allow(unused_imports)]\n\n\n"
    );
}

#[test]
fn preamble_keeps_the_lines_of_the_file() {
    let text = add_preamble("use a;\nuse b;\n", "a tool");
    let lines: Vec<&str> = text.split('\n').collect();
    assert_eq!(
        lines,
        vec![
            "// This file was generated by a tool.",
            "",
            "#![allow(unused_imports)]",
            "",
            "use a;",
            "use b;",
            "",
            "",
        ]
    );
}
