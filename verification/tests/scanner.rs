use helmls::model::{Location, Value, Var};
use helmls::scanner::{
    classify, helpers_from_captures, tags_from_captures, Binding, Scanner, Tag, TagKind,
};
use helmls::text::chars_of;

fn at(line: usize, start: usize, end: usize) -> Location {
    Location { line, start, end }
}

fn var(line: usize, start: usize, end: usize) -> Var {
    Var { value: Value::Null, location: at(line, start, end) }
}

fn scan_line(line: &str, lineno: usize) -> Vec<Tag> {
    Scanner::new().unwrap().scan_line(line, lineno)
}

fn helper_names(text: &str) -> Vec<String> {
    Scanner::new().unwrap().helper_names(text)
}

fn kinds(tags: &[Tag]) -> Vec<TagKind> {
    tags.iter().map(|t| t.kind).collect()
}

#[test]
fn classify_reads_the_first_word() {
    assert_eq!(classify(&chars_of("end")), TagKind::End);
    assert_eq!(classify(&chars_of("end ")), TagKind::End);
    assert_eq!(classify(&chars_of("end -")), TagKind::End);
    assert_eq!(classify(&chars_of("if .Values.enabled ")), TagKind::If);
    assert_eq!(classify(&chars_of("with .Values.image ")), TagKind::With);
    assert_eq!(classify(&chars_of("range .Values.list ")), TagKind::Range);
    assert_eq!(classify(&chars_of("range $k, $v := .Values.list ")), TagKind::Range);
    assert_eq!(classify(&chars_of("else ")), TagKind::Else);
    assert_eq!(classify(&chars_of("  \t if x")), TagKind::If);
}

#[test]
fn classify_tells_else_if_from_else() {
    assert_eq!(classify(&chars_of("else if .Values.other ")), TagKind::ElseIf);
    assert_eq!(classify(&chars_of("else   if x")), TagKind::ElseIf);
    assert_eq!(classify(&chars_of("else")), TagKind::Else);
    assert_eq!(classify(&chars_of("else -")), TagKind::Else);
    assert_eq!(classify(&chars_of("else iffy")), TagKind::Else);
    assert_eq!(classify(&chars_of("else with .x")), TagKind::Else);
}

#[test]
fn classify_leaves_everything_else_inert() {
    assert_eq!(classify(&chars_of("")), TagKind::Inert);
    assert_eq!(classify(&chars_of("   ")), TagKind::Inert);
    assert_eq!(classify(&chars_of("$v ")), TagKind::Inert);
    assert_eq!(classify(&chars_of(".Values.name ")), TagKind::Inert);
    assert_eq!(classify(&chars_of("include \"chart.name\" . ")), TagKind::Inert);
    assert_eq!(classify(&chars_of("template \"x\" ")), TagKind::Inert);
    assert_eq!(classify(&chars_of("define \"x\" ")), TagKind::Inert);
    assert_eq!(classify(&chars_of("ending ")), TagKind::Inert);
    assert_eq!(classify(&chars_of("endif")), TagKind::Inert);
    assert_eq!(classify(&chars_of("If x")), TagKind::Inert);
    assert_eq!(classify(&chars_of("- end")), TagKind::Inert);
    assert_eq!(classify(&chars_of("if. x")), TagKind::Inert);
}

#[test]
fn scan_line_without_tags() {
    assert_eq!(scan_line("", 0), vec![]);
    assert_eq!(scan_line("apiVersion: v1", 3), vec![]);
    assert_eq!(scan_line("{ { end } }", 3), vec![]);
    assert_eq!(scan_line("{{}}", 3), vec![]);
}

#[test]
fn scan_line_finds_the_inner_text_and_its_columns() {
    let tags = scan_line("{{ end }}", 7);
    assert_eq!(
        tags,
        vec![Tag {
            kind: TagKind::End,
            text: "end ".to_string(),
            location: at(7, 3, 7),
            bindings: vec![],
        }]
    );
}

#[test]
fn scan_line_takes_trim_markers() {
    let tags = scan_line("  {{- if .Values.enabled -}}", 2);
    assert_eq!(tags.len(), 1);
    assert_eq!(tags[0].kind, TagKind::If);
    assert_eq!(tags[0].text, "if .Values.enabled -");
    assert_eq!(tags[0].location, at(2, 6, 26));
    assert_eq!(kinds(&scan_line("{{- end -}}", 0)), vec![TagKind::End]);
    assert_eq!(kinds(&scan_line("{{-end}}", 0)), vec![TagKind::End]);
    assert_eq!(kinds(&scan_line("{{end}}", 0)), vec![TagKind::End]);
    assert_eq!(kinds(&scan_line("{{- else }}", 0)), vec![TagKind::Else]);
    assert_eq!(kinds(&scan_line("{{- else if .x }}", 0)), vec![TagKind::ElseIf]);
    assert_eq!(kinds(&scan_line("{{ with .x -}}", 0)), vec![TagKind::With]);
}

#[test]
fn scan_line_goes_from_left_to_right() {
    let tags = scan_line("{{ if .a }}x{{ else }}y{{ end }} {{ .b }}", 0);
    assert_eq!(kinds(&tags), vec![TagKind::If, TagKind::Else, TagKind::End, TagKind::Inert]);
    assert_eq!(tags[0].location, at(0, 3, 9));
    assert_eq!(tags[1].location, at(0, 15, 20));
    assert_eq!(tags[2].location, at(0, 26, 30));
    assert_eq!(tags[3].location, at(0, 36, 39));
    assert_eq!(tags[3].text, ".b ");
}

#[test]
fn scan_line_declares_the_two_range_variables() {
    let tags = scan_line("{{ range $k, $v := .Values.list }}", 0);
    assert_eq!(
        tags,
        vec![Tag {
            kind: TagKind::Range,
            text: "range $k, $v := .Values.list ".to_string(),
            location: at(0, 3, 32),
            bindings: vec![
                Binding { name: "$k".to_string(), var: var(0, 9, 11) },
                Binding { name: "$v".to_string(), var: var(0, 13, 15) },
            ],
        }]
    );
}

#[test]
fn scan_line_range_without_the_two_variable_form_declares_nothing() {
    let tags = scan_line("{{ range .Values.list }}", 4);
    assert_eq!(kinds(&tags), vec![TagKind::Range]);
    assert!(tags[0].bindings.is_empty());
    let one = scan_line("{{ range $v := .Values.list }}", 4);
    assert_eq!(kinds(&one), vec![TagKind::Range]);
    assert!(one[0].bindings.is_empty());
}

#[test]
fn scan_line_gives_bindings_to_range_tags_only() {
    let tags = scan_line("{{ if .a }}{{ range $i, $e := .b }}{{ $e }}", 1);
    assert_eq!(kinds(&tags), vec![TagKind::If, TagKind::Range, TagKind::Inert]);
    assert!(tags[0].bindings.is_empty());
    assert_eq!(
        tags[1].bindings,
        vec![
            Binding { name: "$i".to_string(), var: var(1, 20, 22) },
            Binding { name: "$e".to_string(), var: var(1, 24, 26) },
        ]
    );
    assert!(tags[2].bindings.is_empty());
}

#[test]
fn scan_line_takes_the_first_range_form_of_the_line_for_every_range() {
    let tags = scan_line("{{ range $a, $b := .x }}{{ range $c, $d := .y }}", 0);
    assert_eq!(kinds(&tags), vec![TagKind::Range, TagKind::Range]);
    let first = vec![
        Binding { name: "$a".to_string(), var: var(0, 9, 11) },
        Binding { name: "$b".to_string(), var: var(0, 13, 15) },
    ];
    assert_eq!(tags[0].bindings, first);
    assert_eq!(tags[1].bindings, first);
}

#[test]
fn scan_line_counts_columns_in_characters() {
    // "é" and "→" take more than one byte each
    let tags = scan_line("é→ {{ range $k, $v := .l }}", 0);
    assert_eq!(tags.len(), 1);
    assert_eq!(tags[0].location, at(0, 6, 25));
    assert_eq!(tags[0].text, "range $k, $v := .l ");
    assert_eq!(
        tags[0].bindings,
        vec![
            Binding { name: "$k".to_string(), var: var(0, 12, 14) },
            Binding { name: "$v".to_string(), var: var(0, 16, 18) },
        ]
    );
}

#[test]
fn scan_line_takes_unicode_names() {
    let tags = scan_line("{{ range $clé, $värde := .l }}", 0);
    assert_eq!(
        tags[0].bindings,
        vec![
            Binding { name: "$clé".to_string(), var: var(0, 9, 13) },
            Binding { name: "$värde".to_string(), var: var(0, 15, 21) },
        ]
    );
}

#[test]
fn tags_from_captures_reads_group_one() {
    let line = "{{ end }}";
    let statements = vec![vec![Some((0, 9)), Some((3, 7))]];
    let tags = tags_from_captures(line, 5, &statements, &vec![]);
    assert_eq!(
        tags,
        vec![Tag {
            kind: TagKind::End,
            text: "end ".to_string(),
            location: at(5, 3, 7),
            bindings: vec![],
        }]
    );
}

#[test]
fn tags_from_captures_skips_what_is_no_span_of_the_line() {
    let line = "é{{ end }}";
    // no group 1, group 1 absent, reversed, inside a character, past the end
    let statements = vec![
        vec![Some((0, 3))],
        vec![Some((0, 3)), None],
        vec![Some((0, 3)), Some((5, 4))],
        vec![Some((0, 3)), Some((1, 4))],
        vec![Some((0, 3)), Some((4, 40))],
        vec![],
        vec![Some((2, 11)), Some((5, 9))],
    ];
    let tags = tags_from_captures(line, 0, &statements, &vec![]);
    assert_eq!(tags.len(), 1);
    assert_eq!(tags[0].kind, TagKind::End);
    assert_eq!(tags[0].location, at(0, 4, 8));
}

#[test]
fn tags_from_captures_takes_bindings_from_the_first_range_match() {
    let line = "{{ range $k, $v := .l }}";
    let statements = vec![vec![Some((0, 24)), Some((3, 22))]];
    let ranges = vec![
        vec![Some((3, 18)), Some((9, 11)), Some((13, 15))],
        vec![Some((0, 1)), Some((0, 1)), Some((1, 2))],
    ];
    let tags = tags_from_captures(line, 0, &statements, &ranges);
    assert_eq!(
        tags[0].bindings,
        vec![
            Binding { name: "$k".to_string(), var: var(0, 9, 11) },
            Binding { name: "$v".to_string(), var: var(0, 13, 15) },
        ]
    );
    // a group that took no part declares nothing
    let partial = vec![vec![Some((3, 18)), None, Some((13, 15))]];
    let tags = tags_from_captures(line, 0, &statements, &partial);
    assert_eq!(tags[0].bindings, vec![Binding { name: "$v".to_string(), var: var(0, 13, 15) }]);
}

#[test]
fn helper_names_lists_what_follows_define() {
    let text = "{{- define \"chart.name\" -}}\nx\n{{- end }}\n{{ define \"chart.labels\" }}\n";
    assert_eq!(
        helper_names(text),
        vec!["\"chart.name\" -".to_string(), "\"chart.labels\" ".to_string()]
    );
    assert_eq!(helper_names("{{ if .x }}{{ end }}"), Vec::<String>::new());
    assert_eq!(helper_names(""), Vec::<String>::new());
}

#[test]
fn helpers_from_captures_reads_group_one() {
    let text = "é{{ define \"a\" }}";
    let matches = vec![vec![Some((2, 19)), Some((12, 16))], vec![Some((0, 1)), Some((1, 2))]];
    assert_eq!(helpers_from_captures(text, &matches), vec!["\"a\" ".to_string()]);
}

#[test]
fn scanner_compiles_its_patterns() {
    assert!(Scanner::new().is_ok());
}

#[test]
fn scanner_can_be_used_again_and_again() {
    let scanner = Scanner::new().unwrap();
    let first = scanner.scan_line("{{ range $k, $v := .l }}", 0);
    let second = scanner.scan_line("{{ end }}", 1);
    let third = scanner.scan_line("{{ range $k, $v := .l }}", 0);
    assert_eq!(first, third);
    assert_eq!(kinds(&second), vec![TagKind::End]);
}
