use pumlformat::{classify, format_plantuml, LineKind};

const INPUT1: &str = r#"
    
    @startuml
actor User
@enduml



"#;
const OUTPUT1: &str = r#"@startuml
actor User
@enduml
"#;

#[test]
fn test_1() {
    assert_eq!(format_plantuml(INPUT1, 4).unwrap(), OUTPUT1);
}

const INPUT2: &str = r#"@startuml
alt
A-->B:TODO
end
@enduml
"#;

const OUTPUT2: &str = r#"@startuml
alt
    A-->B:TODO
end
@enduml
"#;

#[test]
fn test_2() {
    assert_eq!(format_plantuml(INPUT2, 4).unwrap(), OUTPUT2);
}

const INPUT3: &str = r#"@startuml
alt
A-->B:TODO
     
  
       
end
@enduml"#;
const OUTPUT3: &str = r#"@startuml
alt
    A-->B:TODO

end
@enduml
"#;

#[test]
fn test_3() {
    assert_eq!(format_plantuml(INPUT3, 4).unwrap(), OUTPUT3);
}

const INPUT4: &str = r#"@startuml

' class Test <<Interface>>{
'     + test()
' }

@enduml"#;
const OUTPUT4: &str = r#"@startuml

' class Test <<Interface>>{
'     + test()
' }

@enduml
"#;

#[test]
fn test_4() {
    assert_eq!(format_plantuml(INPUT4, 4).unwrap(), OUTPUT4);
}

#[test]
fn empty_document_formats_to_one_newline() {
    assert_eq!(format_plantuml("", 4).unwrap(), "\n");
    assert_eq!(format_plantuml("\n\n\n", 4).unwrap(), "\n");
    assert_eq!(format_plantuml("   \t \n  \n", 4).unwrap(), "\n");
}

#[test]
fn trailing_newline_always_exactly_one() {
    assert_eq!(format_plantuml("a", 4).unwrap(), "a\n");
    assert_eq!(format_plantuml("a\n", 4).unwrap(), "a\n");
    assert_eq!(format_plantuml("a\n\n\n\n", 4).unwrap(), "a\n");
}

#[test]
fn blank_runs_collapse_single_blank_kept() {
    assert_eq!(format_plantuml("a\n\nb", 4).unwrap(), "a\n\nb\n");
    assert_eq!(format_plantuml("a\n\n\n\n\nb", 4).unwrap(), "a\n\nb\n");
    assert_eq!(format_plantuml("a\n \n\t\n  \nb\n\nc", 4).unwrap(), "a\n\nb\n\nc\n");
}

#[test]
fn every_blank_run_collapses_not_just_the_first() {
    assert_eq!(
        format_plantuml("a\n\n\nb\n\n\nc", 4).unwrap(),
        "a\n\nb\n\nc\n",
    );
}

#[test]
fn carriage_returns_are_trimmed_like_whitespace() {
    assert_eq!(format_plantuml("alt\r\nx\r\nend\r\n", 4).unwrap(), "alt\n    x\nend\n");
}

#[test]
fn closer_at_depth_zero_keeps_zero_indent() {
    assert_eq!(
        format_plantuml("end\nendif\nplain\n}", 4).unwrap(),
        "end\nendif\nplain\n}\n",
    );
}

#[test]
fn nested_blocks_indent_by_unit() {
    assert_eq!(
        format_plantuml("if a\nwhile b\nwork\nendwhile\nendif", 2).unwrap(),
        "if a\n  while b\n    work\n  endwhile\nendif\n",
    );
}

#[test]
fn width_zero_yields_no_indentation() {
    assert_eq!(
        format_plantuml("alt\nx\nend", 0).unwrap(),
        "alt\nx\nend\n",
    );
}

#[test]
fn else_sits_at_outer_depth_and_reopens() {
    assert_eq!(
        format_plantuml("if x\nA\nelse\nB\nendif", 4).unwrap(),
        "if x\n    A\nelse\n    B\nendif\n",
    );
    assert_eq!(
        format_plantuml("if x\nA\nelseif y\nB\nendif", 4).unwrap(),
        "if x\n    A\nelseif y\n    B\nendif\n",
    );
}

#[test]
fn note_block_form_opens_inline_form_does_not() {
    assert_eq!(
        format_plantuml("note right of Foo\nhello\nend note", 4).unwrap(),
        "note right of Foo\n    hello\nend note\n",
    );
    assert_eq!(
        format_plantuml("note right: some text\nafter", 4).unwrap(),
        "note right: some text\nafter\n",
    );
}

#[test]
fn end_note_allows_internal_whitespace() {
    assert_eq!(
        format_plantuml("note over A\nx\nend   note", 4).unwrap(),
        "note over A\n    x\nend   note\n",
    );
    assert_eq!(format_plantuml("alt\nendnote", 4).unwrap(), "alt\nendnote\n");
}

#[test]
fn comments_indent_but_never_change_depth() {
    assert_eq!(
        format_plantuml("alt\n' if {\nbody\nend", 4).unwrap(),
        "alt\n    ' if {\n    body\nend\n",
    );
}

#[test]
fn keywords_match_case_insensitively() {
    assert_eq!(
        format_plantuml("ALT\nx\nEnd", 4).unwrap(),
        "ALT\n    x\nEnd\n",
    );
}

#[test]
fn closer_keywords_need_a_word_boundary() {
    // "stop2" and "ending" are plain; "stop!" closes.
    assert_eq!(format_plantuml("alt\nstop2", 4).unwrap(), "alt\n    stop2\n");
    assert_eq!(format_plantuml("alt\nending", 4).unwrap(), "alt\n    ending\n");
    assert_eq!(format_plantuml("alt\nstop!", 4).unwrap(), "alt\nstop!\n");
}

#[test]
fn opener_keywords_are_bare_prefixes() {
    // The opener set matches as a raw prefix, with no boundary required.
    assert_eq!(format_plantuml("ifoo\nx", 4).unwrap(), "ifoo\n    x\n");
}

#[test]
fn braces_open_and_close_blocks() {
    assert_eq!(
        format_plantuml("class Foo {\nfield\n}", 4).unwrap(),
        "class Foo {\n    field\n}\n",
    );
    // A lone "{" has no word character before it and opens nothing.
    assert_eq!(format_plantuml("{\nx", 4).unwrap(), "{\nx\n");
}

#[test]
fn formatting_is_idempotent_on_samples() {
    let samples = [
        INPUT1, INPUT2, INPUT3, INPUT4,
        "if x\nA\nelse\nB\nendif",
        "note right of Foo\nhello\nend note\n\n\nclass X {\ny\n}",
        "",
        "' only a comment",
    ];
    for s in samples {
        let once = format_plantuml(s, 4).unwrap();
        let twice = format_plantuml(&once, 4).unwrap();
        assert_eq!(twice, once);
    }
}

#[test]
fn classify_follows_rule_order() {
    assert_eq!(classify(""), LineKind::Blank);
    assert_eq!(classify("' anything, even endif"), LineKind::Comment);
    assert_eq!(classify("endif"), LineKind::Closer);
    assert_eq!(classify("end note"), LineKind::Closer);
    assert_eq!(classify("}"), LineKind::Closer);
    // else matches both sets; the closer set is tried first.
    assert_eq!(classify("else"), LineKind::Closer);
    assert_eq!(classify("elseif cond"), LineKind::Closer);
    assert_eq!(classify("if x > 1"), LineKind::Opener);
    assert_eq!(classify("note left of B"), LineKind::Opener);
    assert_eq!(classify("note left: text"), LineKind::Plain);
    assert_eq!(classify("state Config {"), LineKind::Opener);
    assert_eq!(classify("A --> B : msg"), LineKind::Plain);
    assert_eq!(classify("@startuml"), LineKind::Plain);
}
