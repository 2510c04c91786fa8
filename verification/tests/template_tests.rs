use fstsed::builder::build_fstsed;
use fstsed::fstsed::{ColorChoice, FstSed};
use fstsed::template::test_for_json_keys;

struct Fields {
    key: String,
    value: String,
    v: String,
}

impl microtemplate::Context for &Fields {
    fn get_field(&self, field_name: &str) -> &str {
        match field_name {
            "key" => &self.key,
            "value" => &self.value,
            "v" => &self.v,
            _ => "",
        }
    }
}

fn rendered(template: &str) -> String {
    let line = "{\"key\":\"abc\",\"v\":\"seven\"}";
    let built = build_fstsed(&vec![line.as_bytes().to_vec()], "key", false).unwrap();
    let mut engine =
        FstSed::from_built(built, Some(template.to_string()), ColorChoice::Never).unwrap();
    assert_eq!(engine.longest_match(b"abc"), Some(3));
    engine.get_match().render()
}

#[test]
fn plain_templates_need_no_json() {
    assert!(!test_for_json_keys(""));
    assert!(!test_for_json_keys("no placeholder"));
    assert!(!test_for_json_keys("<{key}|{value}>"));
    assert!(!test_for_json_keys("{key}{key}{value}"));
    assert!(!test_for_json_keys("}{key}"));
    assert!(!test_for_json_keys("{key}}"));
}

#[test]
fn other_placeholders_need_json() {
    assert!(test_for_json_keys("{v}"));
    assert!(test_for_json_keys("{key}->{v}"));
    assert!(test_for_json_keys("{/a/b}"));
    assert!(test_for_json_keys("{key"));
    assert!(test_for_json_keys("{keys}"));
    assert!(test_for_json_keys("{ key}"));
    assert!(test_for_json_keys("{value"));
    assert!(test_for_json_keys("{"));
    assert!(test_for_json_keys("{{key}"));
    assert!(test_for_json_keys("{Key}"));
    assert!(test_for_json_keys("\u{e9}{\u{e9}}"));
}

#[test]
fn placeholders_are_replaced() {
    assert_eq!(rendered("{key}->{v}"), "abc->seven");
    assert_eq!(rendered("[{key}]"), "[abc]");
    assert_eq!(rendered("{value}"), "{\"key\":\"abc\",\"v\":\"seven\"}");
    assert_eq!(rendered("{}"), "");
    assert_eq!(rendered("{nothing}"), "");
    assert_eq!(rendered("plain"), "plain");
    assert_eq!(rendered(""), "");
    assert_eq!(rendered("a}b"), "a}b");
    assert_eq!(rendered("\u{e9}{key}\u{20ac}"), "\u{e9}abc\u{20ac}");
}

#[test]
fn open_brace_without_a_closing_one_ends_the_replacing() {
    assert_eq!(rendered("ab{cd"), "abab{cd");
    assert_eq!(rendered("{key}x{"), "abcxx{");
    assert_eq!(rendered("{"), "{");
    assert_eq!(rendered("{key}{"), "abc{");
}

#[test]
fn brace_inside_a_placeholder_belongs_to_its_name() {
    assert_eq!(rendered("{a{key}"), "");
    assert_eq!(rendered("{key}}"), "abc}");
}

#[test]
fn rendering_agrees_with_microtemplate() {
    let fields = Fields {
        key: "abc".to_string(),
        value: "{\"key\":\"abc\",\"v\":\"seven\"}".to_string(),
        v: "seven".to_string(),
    };
    let templates = [
        "",
        "<{key}|{value}>",
        "{key}->{v}",
        "{v}{v}{v}",
        "ab{cd",
        "{key}x{",
        "{",
        "}",
        "{}",
        "}{",
        "{{key}}",
        "{a{key}",
        "x{key}y{v}z{",
        "\u{e9}{key}\u{20ac}{v}\u{1f600}",
        "{key}{unknown}{value}",
    ];
    for template in templates {
        assert_eq!(rendered(template), microtemplate::render(template, &fields), "{}", template);
    }
}
