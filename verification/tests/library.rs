use htmlp::runtime::{
    ContentSource, ModelRequest, PromptFragment, Role, ThinkingLevel, ToolDefinition, ToolUseId,
};
use htmlp::{
    check_source, is_htmlp_file, lint, parse, parse_limit, parse_template, render, sign_source,
    skipped_directory, Bindings, Document, ElementRef, Node, Section, TokenCounter, Variable,
};

struct Scalars;
impl TokenCounter for Scalars {
    fn name(&self) -> &str {
        "scalar"
    }
    fn count(&self, text: &str) -> u64 {
        text.chars().count() as u64
    }
}

fn signed(source: &str) -> Document {
    let mut doc = parse(source).unwrap();
    doc.sign();
    doc
}

#[test]
fn limit_errors_quote_the_value() {
    assert_eq!(
        parse_limit("1e3").unwrap_err(),
        "Invalid token limit \"1e3\"; use 500, 10k, or 1.5k"
    );
    assert_eq!(parse_limit("007").unwrap(), 7);
    assert_eq!(parse_limit("2K").unwrap(), 2000);
}

#[test]
fn parse_errors_carry_their_codes() {
    let cases = [
        ("<htmlp max-tokens='1k' reason='x'>\u{1}</htmlp>", "character"),
        ("<htmlp max-tokens='1k' reason='x'><div></div></htmlp>", "element"),
        ("<section></section>", "root"),
        ("<htmlp max-tokens='1k' reason='x' other='y'></htmlp>", "attribute"),
        ("<htmlp max-tokens='1k' reason='x'>&nbsp;</htmlp>", "entity"),
        ("<htmlp max-tokens='1k' reason='x'><section id='a b'></section></htmlp>", "id"),
        ("<htmlp max-tokens='lots' reason='x'></htmlp>", "limit"),
        ("<htmlp reason='x'></htmlp>", "limit"),
        ("<htmlp max-tokens='1k'></htmlp>", "reason"),
        ("<htmlp max-tokens='1k' reason='x' version='0.1'></htmlp>", "version"),
        ("<htmlp max-tokens='1k' reason='x' tokenizer='a b'></htmlp>", "tokenizer"),
        ("<htmlp max-tokens='1k' reason='x'>{{v</htmlp>", "variable"),
        ("<htmlp max-tokens='1k' reason='x'><section></htmlp>", "syntax"),
    ];
    for (source, code) in cases {
        assert_eq!(parse(source).unwrap_err().code, code, "{source}");
    }
}

#[test]
fn numeric_references_decode_to_their_characters() {
    let doc = parse("<htmlp max-tokens='1k' reason='x'>&#65;&#x42;&lt;</htmlp>").unwrap();
    assert_eq!(doc.to_string(), "AB<");
}

#[test]
fn lint_reports_document_tokenizer_depth_binding_and_budget() {
    let mut doc = Document::new(10, "Small.", vec![]);
    doc.version = "0.1".into();
    doc.sign();
    let codes: Vec<String> = lint(&doc, &Scalars).diagnostics.into_iter().map(|d| d.code).collect();
    assert_eq!(codes, ["document", "tokenizer"]);

    let mut deep = Node::text("x");
    for _ in 0..70 {
        deep = Node::Section(Section { id: None, ..Section::new("x", vec![deep]) });
    }
    let mut doc = Document::new(10, "Small.", vec![deep]);
    doc.tokenizer = "scalar".into();
    doc.sign();
    assert!(lint(&doc, &Scalars).diagnostics.iter().any(|d| d.code == "depth"));

    let doc = signed("<htmlp tokenizer='scalar' max-tokens='3' reason='Small.'>{{v}}</htmlp>");
    let errors = render(&doc, &Bindings::new(), &Scalars).unwrap_err();
    assert_eq!(errors[0].code, "binding");
    assert_eq!(errors[0].message, "Missing string binding: v");
    let errors = render(&doc, &Bindings::from([("v".into(), "abcd".into())]), &Scalars).unwrap_err();
    assert_eq!(errors[0].code, "budget");
    assert_eq!(errors[0].message, "document/section: 4 tokens exceeds 3 \u{2014} Small.");
}

#[test]
fn later_bindings_replace_earlier_ones() {
    let doc = signed("<htmlp tokenizer='scalar' max-tokens='30' reason='Small.'>{{v}}</htmlp>");
    let bindings = Bindings::from([("v".into(), "first".into()), ("v".into(), "second".into())]);
    assert_eq!(render(&doc, &bindings, &Scalars).unwrap(), "second");
    let mut more = Bindings::new();
    assert_eq!(more.insert("v".into(), "a".into()), None);
    assert_eq!(more.insert("v".into(), "b".into()), Some("a".into()));
    assert_eq!(more.get("v").map(|s| s.as_str()), Some("b"));
}

#[test]
fn lookup_finds_the_first_element_in_source_order() {
    let doc = parse(
        "<htmlp max-tokens='1k' reason='x'><section id='a'>{{v}}<section id='b'>{{v}}</section></section></htmlp>",
    )
    .unwrap();
    match doc.get_element_by_id("v") {
        Some(ElementRef::Variable(Variable { position, .. })) => assert_eq!(position.column, 51),
        _ => panic!("variable not found"),
    }
    assert_eq!(doc.get_element_by_id("b").unwrap().to_string(), "{{v}}");
    assert_eq!(doc.get_element_by_id("a").unwrap().to_string(), "{{v}}{{v}}");
    assert!(doc.get_element_by_id("c").is_none());
    assert_eq!(doc.sections()[0].sections().len(), 1);
}

#[test]
fn templates_parse_to_nodes() {
    let nodes = parse_template("Hi {{name}} &amp; bye").unwrap();
    assert_eq!(nodes.len(), 3);
    assert!(matches!(&nodes[1], Node::Variable(v) if v.id == "name"));
    assert!(parse_template("{{ name }}").is_err());
}

#[test]
fn signing_a_nearly_full_source_can_exceed_the_cap() {
    let head = "<htmlp max-tokens='1k' reason='x'>";
    let tail = "</htmlp>";
    let body = "a".repeat(4 * 1024 * 1024 - head.len() - tail.len() - 4);
    let source = format!("{head}{body}{tail}");
    assert!(parse(&source).is_ok());
    assert_eq!(sign_source(&source).unwrap_err().code, "source-size");
}

#[test]
fn file_reports_and_scan_rules() {
    let report = check_source("<htmlp></htmlp>", &Scalars);
    assert_eq!(report.diagnostics.len(), 1);
    assert_eq!(report.diagnostics[0].code, "limit");
    assert!(report.measurements.is_empty());
    assert!(is_htmlp_file("a.htmlp"));
    assert!(!is_htmlp_file(".htmlp"));
    assert!(!is_htmlp_file(".htmlp.json"));
    assert!(skipped_directory("node_modules"));
    assert!(!skipped_directory("src"));
}

#[test]
fn request_variants_keep_attribution() {
    let request = ModelRequest::builder("m")
        .fragment(PromptFragment::text(ContentSource::SystemPrompt, Role::System, "sys"))
        .tool(ToolDefinition {
            name: "bash".into(),
            description: "run".into(),
            input_schema: "{}".into(),
        })
        .thinking_level(ThinkingLevel::Low)
        .build();
    let suffix = request.with_suffix_instruction(ContentSource::CompactionSummary, "Summarize.");
    assert!(suffix.tools().is_empty());
    assert_eq!(suffix.fragments().len(), 2);
    assert_eq!(suffix.fragments()[1].source(), &ContentSource::CompactionSummary);
    assert_eq!(suffix.fragments()[1].role(), Role::User);
    let probe = request.with_warm_probe();
    assert_eq!(probe.max_output_tokens, Some(1));
    assert_eq!(probe.tools().len(), 1);
    assert_eq!(
        probe.fragments()[1].source(),
        &ContentSource::SystemReminder { origin: "cache-warm".into() }
    );
    assert_eq!(probe.fragments()[1].byte_count(), 4);
    assert_eq!(ThinkingLevel::default().as_str(), "high");
    assert_eq!(probe.thinking_level.to_string(), "low");
    assert_eq!(ToolUseId::from_string("id-1".into()).as_str(), "id-1");
}

#[test]
fn estimates_order_sources_like_content_source() {
    let request = ModelRequest::builder("m")
        .fragment(PromptFragment::text(ContentSource::Hook { hook_name: "b".into() }, Role::User, "x"))
        .fragment(PromptFragment::text(ContentSource::Hook { hook_name: "a".into() }, Role::User, "x"))
        .fragment(PromptFragment::text(ContentSource::SystemPrompt, Role::System, "x"))
        .fragment(PromptFragment::text(ContentSource::Hook { hook_name: "a".into() }, Role::User, "yyyy"))
        .build();
    let estimate = request.estimate();
    let sources: Vec<ContentSource> = estimate.sources().iter().map(|s| s.source.clone()).collect();
    let mut sorted = sources.clone();
    sorted.sort();
    assert_eq!(sources, sorted);
    assert_eq!(sources.len(), 3);
    assert_eq!(estimate.sources()[1].text_bytes, 5);
    assert_eq!(estimate.tokens_for(&ContentSource::Hook { hook_name: "a".into() }), 2);
    assert_eq!(estimate.tokens_for(&ContentSource::UserMessage), 0);
}

#[test]
fn text_is_literal_and_template_errors_have_positions() {
    let mut doc = Document::new(
        100,
        "Shared.",
        vec![
            Node::Section(Section::new("literal", vec![Node::text("{{name}} &amp; <tag>")])),
            Node::Section(Section::new(
                "template",
                parse_template(" &amp; <tag> {{name}}").unwrap(),
            )),
        ],
    );
    doc.tokenizer = "scalar".into();
    doc.sign();
    let output = render(&doc, &Bindings::from([("name".into(), "ok".into())]), &Scalars).unwrap();
    assert_eq!(output, "{{name}} &amp; <tag> &amp; <tag> ok");
    for invalid in ["{{}}", "{{ name }}", "{{name", "{{name max-tokens=2}}"] {
        assert!(parse_template(invalid).is_err());
    }
    let error = parse_template("é\n{{bad name}}").unwrap_err();
    assert_eq!(
        (error.position.line, error.position.column, error.position.offset),
        (2, 1, 3)
    );
}
