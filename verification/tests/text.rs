use lib::domain::{AbstractString, EntryKey, Splice, StringPart};
use lib::text::{
    assignment_rhs_text, chars_of, hole_is_control_fragment, is_whitespace,
    key_names_yaml_document, string_of, strip_template_action_wrapping, AssignmentKind,
};

fn dynamic(parts: Vec<StringPart>) -> EntryKey {
    EntryKey::Dynamic(AbstractString { parts, suppressed: false })
}

fn text(alternatives: &[&str]) -> StringPart {
    StringPart::Text(alternatives.iter().map(|s| s.to_string()).collect())
}

#[test]
fn action_wrapping_is_stripped_with_trim_markers() {
    assert_eq!(
        strip_template_action_wrapping("  {{- $x := 1 -}} trailing"),
        Some("$x := 1".to_string())
    );
    assert_eq!(strip_template_action_wrapping("{{ .Values.a }}"), Some(".Values.a".to_string()));
    assert_eq!(strip_template_action_wrapping("{{--x--}}"), Some("-x-".to_string()));
    assert_eq!(strip_template_action_wrapping("{{}}"), Some(String::new()));
    assert_eq!(strip_template_action_wrapping("no action"), None);
    assert_eq!(strip_template_action_wrapping("{{ unclosed"), None);
    assert_eq!(strip_template_action_wrapping("x {{ late }}"), None);
}

#[test]
fn assignment_right_hand_sides_follow_the_operator() {
    assert_eq!(
        assignment_rhs_text("{{ $x := .Values.a }}", AssignmentKind::Declaration),
        Some(".Values.a".to_string())
    );
    assert_eq!(
        assignment_rhs_text("  $y = default 2 .Values.b  ", AssignmentKind::Assignment),
        Some("default 2 .Values.b".to_string())
    );
    // A declaration's `:=` also holds an `=`: the assignment reading takes what follows it.
    assert_eq!(
        assignment_rhs_text("$z := 3", AssignmentKind::Assignment),
        Some("3".to_string())
    );
    assert_eq!(assignment_rhs_text("{{ $x }}", AssignmentKind::Declaration), None);
    assert_eq!(assignment_rhs_text("{{ $x := 1", AssignmentKind::Declaration), None);
    assert_eq!(assignment_rhs_text("$x :=", AssignmentKind::Declaration), Some(String::new()));
}

#[test]
fn control_fragments_are_recognized_by_their_keyword() {
    assert!(hole_is_control_fragment("{{- if .Values.x }}"));
    assert!(hole_is_control_fragment("{{ end }}"));
    assert!(hole_is_control_fragment("{{- else -}}"));
    assert!(hole_is_control_fragment("{{ range $k, $v := .Values.m }}"));
    assert!(hole_is_control_fragment("{{ with .Values.a }}"));
    assert!(hole_is_control_fragment("{{ define \"x\" }}"));
    assert!(hole_is_control_fragment("{{ block \"y\" . }}"));
    assert!(hole_is_control_fragment("  else  "));
    assert!(hole_is_control_fragment("{{--   end }}"));
    assert!(!hole_is_control_fragment("{{ .Values.x }}"));
    assert!(!hole_is_control_fragment("{{ ifx }}"));
    assert!(!hole_is_control_fragment("{{ end}}x"));
    assert!(!hole_is_control_fragment(""));
    assert!(!hole_is_control_fragment("   "));
}

#[test]
fn yaml_document_keys_need_a_yaml_extension() {
    assert!(key_names_yaml_document(&EntryKey::Literal("config.YAML  ".to_string())));
    assert!(key_names_yaml_document(&EntryKey::Literal("jcasc-default-config.yml".to_string())));
    assert!(key_names_yaml_document(&EntryKey::Literal(".yaml".to_string())));
    assert!(!key_names_yaml_document(&EntryKey::Literal("plugins.txt".to_string())));
    assert!(!key_names_yaml_document(&EntryKey::Literal("yaml".to_string())));
    assert!(!key_names_yaml_document(&EntryKey::Literal("a.yaml.bak".to_string())));
    assert!(!key_names_yaml_document(&EntryKey::Literal("a. yaml".to_string())));
}

#[test]
fn templated_keys_name_yaml_documents_by_their_literal_tail() {
    let splice = StringPart::Splice(Splice::scalar("name".to_string()));
    assert!(key_names_yaml_document(&dynamic(vec![splice, text(&[".yml"])])));
    assert!(key_names_yaml_document(&dynamic(vec![text(&["a.yaml", "b.YML"])])));
    assert!(!key_names_yaml_document(&dynamic(vec![text(&[".yml", ".txt"])])));
    assert!(!key_names_yaml_document(&dynamic(vec![text(&[])])));
    assert!(!key_names_yaml_document(&dynamic(vec![])));
    let trailing_splice = StringPart::Splice(Splice::scalar("ext".to_string()));
    assert!(!key_names_yaml_document(&dynamic(vec![text(&["a.yaml"]), trailing_splice])));
}

#[test]
fn characters_round_trip_through_strings() {
    let chars = chars_of("héllo wörld");
    assert_eq!(chars.len(), 11);
    assert_eq!(string_of(&chars, 0, 5), "héllo");
    assert_eq!(string_of(&chars, 6, 11), "wörld");
    assert_eq!(string_of(&chars, 3, 3), "");
}

#[test]
fn whitespace_is_unicode_white_space() {
    for c in [' ', '\t', '\n', '\r', '\u{0b}', '\u{0c}', '\u{85}', '\u{a0}', '\u{2003}', '\u{3000}'] {
        assert!(is_whitespace(c), "{:?}", c);
        assert_eq!(is_whitespace(c), c.is_whitespace());
    }
    for c in ['a', '-', '{', '\u{200b}', '\u{180e}'] {
        assert!(!is_whitespace(c), "{:?}", c);
        assert_eq!(is_whitespace(c), c.is_whitespace());
    }
}

#[test]
fn control_keywords_right_before_the_closing_braces_count() {
    assert!(hole_is_control_fragment("{{end}}"));
    assert!(hole_is_control_fragment("{{else}}"));
    assert!(hole_is_control_fragment("{{- end}}"));
    assert!(hole_is_control_fragment("{{- end -}}"));
    assert!(hole_is_control_fragment("{{end-}}"));
    assert!(hole_is_control_fragment("{{if .Values.x}}"));
    assert!(!hole_is_control_fragment("{{endpoint}}"));
    assert!(!hole_is_control_fragment("{{}}"));
    assert!(!hole_is_control_fragment("{{ .Values.end }}"));
}
