use htmlp::runtime::{
    ByteEstimator, ContentSource, ModelRequest, PromptFragment, ReportedUsage, Role,
};
use htmlp::{
    budget_signature, lint, parse, render, render_checked, Bindings, Document, Limits, Node, Section,
    TokenCounter,
};

struct Scalars;
impl TokenCounter for Scalars {
    fn name(&self) -> &str {
        "scalar"
    }
    fn count(&self, text: &str) -> u64 {
        text.chars().count() as u64
    }
}

fn nested() -> Document {
    let inner = Section::new("inner", vec![Node::text("abc")]);
    let mut outer = Section::new("outer", vec![Node::Section(inner), Node::text("de")]);
    outer.limits.per_item = Some(5);
    outer.limits.reason = Some("Items.".into());
    let mut doc = Document::new(100, "Shared.", vec![Node::Section(outer)]);
    doc.tokenizer = "scalar".into();
    doc
}

#[test]
fn signing_twice_is_signing_once() {
    let mut once = nested();
    once.sign();
    let mut twice = once.clone();
    twice.sign();
    assert_eq!(once, twice);
}

#[test]
fn signed_documents_have_no_signature_diagnostics() {
    let mut doc = nested();
    assert!(lint(&doc, &Scalars).diagnostics.iter().any(|d| d.code == "signature"));
    doc.sign();
    assert!(lint(&doc, &Scalars).diagnostics.iter().all(|d| d.code != "signature"));
}

#[test]
fn signatures_ignore_the_existing_signature() {
    let a = Limits {
        max_tokens: Some(1000),
        per_item: Some(100),
        reason: Some("Shared & brief.".into()),
        sig: None,
    };
    let mut b = a.clone();
    b.sig = Some("stale".into());
    assert_eq!(budget_signature(&a), budget_signature(&b));
    assert_eq!(budget_signature(&a).as_deref(), Some("29580b676d56bf50"));
    assert_eq!(budget_signature(&Limits::default()), None);
}

#[test]
fn rendered_budgets_hold_for_every_measurement() {
    let mut doc = parse(
        "<htmlp tokenizer='scalar' max-tokens='20' reason='Small.'><section id='a' per-item='4' reason='Items.'><section>{{v}}</section></section>x</htmlp>",
    )
    .unwrap();
    doc.sign();
    let output = render_checked(&doc, &Bindings::from([("v".into(), "abcd".into())]), &Scalars).unwrap();
    for m in &output.report().measurements {
        let tokens = m.tokens.unwrap();
        if let Some(limit) = m.limit {
            assert!(tokens <= limit);
        }
    }
    assert!(render(&doc, &Bindings::from([("v".into(), "abcde".into())]), &Scalars).is_err());
}

#[test]
fn deferred_exactly_when_uncounted() {
    let mut doc = parse(
        "<htmlp tokenizer='scalar' max-tokens='20' reason='Small.'><section>{{v}}</section><section>ab</section></htmlp>",
    )
    .unwrap();
    doc.sign();
    let report = lint(&doc, &Scalars);
    assert_eq!(report.measurements.len(), 3);
    for m in &report.measurements {
        assert_eq!(m.deferred, m.tokens.is_none());
    }
    assert_eq!(report.measurements[1].tokens, Some(2));
}

#[test]
fn spans_cover_the_text_without_gaps() {
    let mut doc = parse(
        "<htmlp tokenizer='scalar' max-tokens='50' reason='Small.'>é<section id='s'>{{v}}<section>z</section></section>{{v}}</htmlp>",
    )
    .unwrap();
    doc.sign();
    let output = render_checked(&doc, &Bindings::from([("v".into(), "😀".into())]), &Scalars).unwrap();
    assert_eq!(output.text(), "é😀z😀");
    let spans = output.spans();
    assert_eq!(spans.len(), 4);
    assert_eq!(spans[0].range.start, 0);
    for pair in spans.windows(2) {
        assert_eq!(pair[0].range.end, pair[1].range.start);
    }
    assert_eq!(spans[3].range.end, output.text().len());
    assert_eq!(output.section("s"), Some("😀z"));
}

#[test]
fn rounding_keeps_nonempty_text() {
    let e = ByteEstimator::default();
    assert_eq!(e.text_tokens(""), 0);
    assert_eq!(e.text_tokens("a"), 1);
    assert_eq!(e.text_tokens("abcd"), 1);
    assert_eq!(e.text_tokens("abcde"), 2);
}

#[test]
fn total_is_the_sum_of_sources() {
    let request = ModelRequest::builder("m")
        .fragment(PromptFragment::text(ContentSource::SystemPrompt, Role::System, "abcdefghi"))
        .fragment(PromptFragment::text(ContentSource::UserMessage, Role::User, "abc"))
        .build();
    let estimate = request.estimate();
    let sum: u64 = estimate.sources().iter().map(|s| s.tokens).sum();
    assert_eq!(estimate.total_tokens(), sum);
    assert_eq!(sum, 4);
}

#[test]
fn merging_snapshots_is_idempotent_and_order_free() {
    let a = ReportedUsage {
        input_tokens: 3,
        output_tokens: 9,
        cache_read_tokens: 1,
        cache_write_tokens: 0,
        reasoning_tokens: 2,
    };
    let b = ReportedUsage {
        input_tokens: 5,
        output_tokens: 4,
        cache_read_tokens: 0,
        cache_write_tokens: 7,
        reasoning_tokens: 1,
    };
    let mut ab = a.clone();
    ab.merge_snapshot(&b);
    let mut again = ab.clone();
    again.merge_snapshot(&b);
    assert_eq!(again, ab);
    let mut ba = b.clone();
    ba.merge_snapshot(&a);
    assert_eq!(ab, ba);
    assert_eq!(ab.prompt_tokens(), 5 + 1 + 7);
}

#[test]
fn calls_add_up() {
    let a = ReportedUsage {
        input_tokens: 3,
        output_tokens: 9,
        cache_read_tokens: 1,
        cache_write_tokens: 0,
        reasoning_tokens: 2,
    };
    let b = ReportedUsage {
        input_tokens: 5,
        output_tokens: 4,
        cache_read_tokens: 0,
        cache_write_tokens: 7,
        reasoning_tokens: 1,
    };
    let mut total = a.clone();
    total.add_call(&b);
    assert_eq!(total.prompt_tokens(), a.prompt_tokens() + b.prompt_tokens());
    assert_eq!(total.reasoning_tokens, 3);
    assert_eq!(total.output_tokens, 13);
    let mut saturated = ReportedUsage { input_tokens: u64::MAX, ..Default::default() };
    saturated.add_call(&a);
    assert_eq!(saturated.input_tokens, u64::MAX);
}

#[test]
fn a_thousands_suffix_multiplies_by_one_thousand() {
    for (digits, value) in [("0", 0u64), ("3", 3), ("42", 42)] {
        assert_eq!(htmlp::parse_limit(digits).unwrap(), value);
        assert_eq!(htmlp::parse_limit(&format!("{digits}k")).unwrap(), value * 1000);
        assert_eq!(htmlp::parse_limit(&format!("{digits}K")).unwrap(), value * 1000);
    }
}

#[test]
fn only_variables_share_ids_in_a_valid_document() {
    let variable = || Node::Variable(htmlp::Variable { id: "v".into(), position: Default::default() });
    let mut doc = Document::new(
        100,
        "Shared.",
        vec![variable(), Node::Section(Section::new("a", vec![variable()])), Node::Section(Section::new("b", vec![]))],
    );
    doc.tokenizer = "scalar".into();
    doc.sign();
    assert!(lint(&doc, &Scalars).diagnostics.iter().all(|d| d.code != "id"));
    doc.children.push(Node::Section(Section::new("v", vec![])));
    doc.sign();
    let report = lint(&doc, &Scalars);
    assert_eq!(report.diagnostics.len(), 1);
    assert_eq!(report.diagnostics[0].code, "id");
    assert_eq!(report.diagnostics[0].message, "Invalid or duplicate ID: v");
}

#[test]
fn parsing_rejects_a_repeated_or_shared_id() {
    let open = "<htmlp max-tokens='1k' reason='Shared.' tokenizer='scalar'>";
    let twice = format!("{open}<section id='a'></section><section id='a'></section></htmlp>");
    assert_eq!(parse(&twice).unwrap_err().code, "id");
    let shared = format!("{open}{{{{a}}}}<section id='a'></section></htmlp>");
    assert_eq!(parse(&shared).unwrap_err().code, "id");
    let variables = format!("{open}{{{{a}}}} and {{{{a}}}}<section id='b'></section></htmlp>");
    assert!(parse(&variables).is_ok());
}

#[test]
fn parsed_documents_never_fail_the_depth_check() {
    let open = "<htmlp max-tokens='1k' reason='Shared.' tokenizer='scalar'>";
    let body = format!("{}x{}", "<section>".repeat(63), "</section>".repeat(63));
    let doc = parse(&format!("{open}{body}</htmlp>")).unwrap();
    assert!(lint(&doc, &Scalars).diagnostics.iter().all(|d| d.code != "depth"));
    let deeper = format!("{open}<section>{body}</section></htmlp>");
    assert_eq!(parse(&deeper).unwrap_err().code, "depth");
}

fn signed(body: &str) -> Document {
    let mut doc = parse(&format!(
        "<htmlp tokenizer='scalar' max-tokens='100' reason='Shared.'>{body}</htmlp>"
    ))
    .unwrap();
    doc.sign();
    doc
}

#[test]
fn parsed_documents_have_reasoned_limits_and_separate_texts() {
    let doc = parse("<htmlp max-tokens='1k' reason='Shared.'>a &amp; b<!-- c -->d<section/>e</htmlp>").unwrap();
    assert!(doc.limits.max_tokens.is_some());
    assert_eq!(doc.children.len(), 3);
    assert!(matches!(&doc.children[0], Node::Text { value } if value == "a & bd"));
    assert!(parse("<htmlp reason='Shared.'></htmlp>").is_err());
    assert_eq!(parse("<htmlp max-tokens='1k' reason=' '></htmlp>").unwrap_err().code, "reason");
    assert_eq!(
        parse("<htmlp max-tokens='1k' reason='A.'><section per-item='3'/></htmlp>").unwrap_err().code,
        "reason"
    );
}

#[test]
fn limits_follow_the_documented_grammar() {
    for (v, n) in [("1.05k", 1050u64), ("007", 7), ("00k", 0), ("1.5K", 1500), ("0.001k", 1)] {
        assert_eq!(htmlp::parse_limit(v).unwrap(), n);
    }
    for v in ["", "k", ".5k", "1.k", "1.0001k", "1.5", "-1", " 1", "1e3", "18446744073709551616", "18446744073709552k"] {
        assert!(htmlp::parse_limit(v).is_err(), "{v}");
    }
}

#[test]
fn lint_reports_every_known_overrun_and_defers_variables() {
    let doc = signed("<section max-tokens='2' reason='Tiny.'>abc</section><section max-tokens='1' reason='V.'>{{v}}</section>");
    let report = lint(&doc, &Scalars);
    assert!(report.diagnostics.iter().any(|d| d.code == "budget"));
    assert_eq!(report.measurements[0].tokens, Some(3));
    assert_eq!(report.measurements[1].tokens, None);
    assert!(report.measurements[1].deferred);
    let items = signed("<section per-item='0' reason='Items.'>abc{{v}}</section>");
    assert!(lint(&items, &Scalars).is_ok());
}

#[test]
fn render_succeeds_exactly_when_bound_and_within_budget() {
    let doc = signed("<section max-tokens='5' reason='Five.'>a{{v}}</section>");
    let ok = render(&doc, &Bindings::from([("v".into(), "bcd".into()), ("extra".into(), "x".into())]), &Scalars);
    assert_eq!(ok.unwrap(), "abcd");
    let missing = render(&doc, &Bindings::from([("w".into(), "x".into())]), &Scalars).unwrap_err();
    assert_eq!(missing[0].code, "binding");
    let long = render(&doc, &Bindings::from([("v".into(), "bcdefg".into())]), &Scalars).unwrap_err();
    assert_eq!(long[0].code, "budget");
    let checked = render_checked(&doc, &Bindings::from([("v".into(), "bcd".into())]), &Scalars).unwrap();
    assert_eq!(checked.text(), "abcd");
    assert_eq!(checked.measurement().tokens, 4);
    assert_eq!(checked.measurement().tokenizer, "scalar");
    assert!(checked.report().measurements.iter().all(|m| !m.deferred));
    assert!(render_checked(&doc, &Bindings::from([("w".into(), "x".into())]), &Scalars).is_err());
}

#[test]
fn spans_name_their_sections_and_variables() {
    let doc = signed("é<section id='s'>x{{v}}</section>");
    let out = render_checked(&doc, &Bindings::from([("v".into(), "ü".into())]), &Scalars).unwrap();
    let spans = out.spans();
    assert_eq!(spans.len(), 3);
    assert_eq!(spans[0].range, 0..2);
    assert!(spans[0].sections.is_empty());
    assert_eq!(spans[1].range, 2..3);
    assert_eq!(spans[1].sections[0].id.as_deref(), Some("s"));
    assert_eq!(spans[1].variable, None);
    assert_eq!(spans[2].range, 3..5);
    assert_eq!(spans[2].variable.as_deref(), Some("v"));
    assert!(out.text().is_char_boundary(spans[2].range.start));
}

#[test]
fn validation_is_clean_exactly_for_valid_documents() {
    let doc = signed("<section id='a' max-tokens='9' reason='R.'>{{v}}{{v}}</section>");
    assert!(lint(&doc, &Scalars).diagnostics.is_empty());
    let mut unsigned = doc.clone();
    unsigned.limits.sig = None;
    assert_eq!(lint(&unsigned, &Scalars).diagnostics[0].code, "signature");
    let mut other = doc.clone();
    other.tokenizer = "other".into();
    assert_eq!(lint(&other, &Scalars).diagnostics[0].code, "tokenizer");
}

#[test]
fn templates_read_back_to_their_source() {
    let nodes = htmlp::parse_template("a &amp; {{x}}{{y}} <b>").unwrap();
    let mut back = String::new();
    for n in &nodes {
        match n {
            Node::Text { value } => back.push_str(value),
            Node::Variable(v) => back.push_str(&format!("{{{{{}}}}}", v.id)),
            Node::Section(_) => unreachable!(),
        }
    }
    assert_eq!(back, "a &amp; {{x}}{{y}} <b>");
    assert_eq!(nodes.len(), 4);
}

#[test]
fn signing_source_touches_only_sig_attributes() {
    let src = "<!-- c -->\n<htmlp  max-tokens=\"1k\"\treason='Shared &amp; brief.'>\r\n<section id=\"a\" sig=\"0000000000000000\">x</section><section max-tokens='5' reason='R.' sig='stale'/></htmlp>";
    let out = htmlp::sign_source(src).unwrap();
    let mut masked = String::new();
    let mut rest = out.as_str();
    while let Some(i) = rest.find("sig=") {
        let q = rest[i + 4..].chars().next().unwrap();
        let end = rest[i + 5..].find(q).unwrap() + i + 5;
        masked.push_str(&rest[..i + 5]);
        masked.push('*');
        rest = &rest[end..];
    }
    masked.push_str(rest);
    assert_eq!(
        masked,
        "<!-- c -->\n<htmlp  max-tokens=\"1k\"\treason='Shared &amp; brief.' sig=\"*\">\r\n<section id=\"a\" >x</section><section max-tokens='5' reason='R.' sig='*'/></htmlp>"
    );
    assert!(!out.contains("0000000000000000"));
    assert!(!out.contains("stale"));
    assert!(htmlp::sign_source("<htmlp>").is_err());
}

#[test]
fn whitespace_runs_bound_what_cl100k_counts() {
    assert!(htmlp::runs_fit("a  b\n\t c"));
    let long = " ".repeat(htmlp::MAX_WHITESPACE_RUN + 1);
    assert!(!htmlp::runs_fit(&format!("a{long}b")));
    assert!(htmlp::runs_fit(&" ".repeat(htmlp::MAX_WHITESPACE_RUN)));
    let counter = htmlp::Cl100k::new().unwrap();
    let mut doc = parse(&format!("<htmlp max-tokens='1k' reason='R.'>x{long}y</htmlp>")).unwrap();
    assert!(counter.can_lint(&doc));
    doc.sign();
    assert!(!counter.can_lint(&doc));
    assert!(!counter.can_render(&doc, &Bindings::new()));
    let mut short = parse("<htmlp max-tokens='1k' reason='R.'>x {{v}} y</htmlp>").unwrap();
    short.sign();
    assert!(counter.can_lint(&short));
    assert!(counter.can_render(&short, &Bindings::from([("v".into(), "z".into())])));
    assert!(!counter.can_render(&short, &Bindings::from([("v".into(), long.clone())])));
    assert!(counter.can_check("<htmlp"));
}

#[test]
fn checking_sums_up_failures_and_deferred_budgets() {
    let ok = signed("<section max-tokens='9' reason='R.'>{{v}}</section>");
    let bad = signed("<section max-tokens='1' reason='R.'>abc</section>");
    let ok_report = lint(&ok, &Scalars);
    let bad_report = lint(&bad, &Scalars);
    let s = htmlp::summarize(&vec![ok_report.clone(), ok_report.clone()]);
    assert!(!s.failed);
    assert_eq!(s.deferred, 4);
    assert_eq!(s.exit_code(), 0);
    let s = htmlp::summarize(&vec![ok_report, bad_report]);
    assert!(s.failed);
    assert_eq!(s.exit_code(), 1);
}

#[test]
fn signing_given_tokens_matches_signing_source() {
    let src = "<htmlp max-tokens=\"5\" reason=\"R.\"/>";
    let tokens = vec![
        htmlp::XmlToken::Start(0..6),
        htmlp::XmlToken::Attr(7..17, 19..20, 7..21),
        htmlp::XmlToken::Attr(22..28, 30..32, 22..33),
        htmlp::XmlToken::End(33..35),
    ];
    assert_eq!(htmlp::sign_tokens(src, &tokens).unwrap(), htmlp::sign_source(src).unwrap());
    assert_eq!(htmlp::sign_tokens(src, &Vec::new()).unwrap_err().code, "root");
}

#[test]
fn lookup_finds_the_first_element_depth_first() {
    let variable = |id: &str| Node::Variable(htmlp::Variable { id: id.into(), position: Default::default() });
    let inner = Section::new("x", vec![variable("y")]);
    let outer = Section::new("o", vec![Node::Section(inner)]);
    let doc = Document::new(100, "R.", vec![Node::Section(outer), variable("x")]);
    match doc.get_element_by_id("x") {
        Some(htmlp::ElementRef::Section(s)) => assert_eq!(s.id.as_deref(), Some("x")),
        _ => panic!("expected the section"),
    }
    assert!(matches!(doc.get_element_by_id("y"), Some(htmlp::ElementRef::Variable(_))));
    assert!(doc.get_element_by_id("z").is_none());
}

#[test]
fn each_measurement_counts_its_own_element() {
    let doc = signed("<section id='a'>ab<section id='b'>{{v}}</section></section><section id='c'>xyz</section>");
    let r = lint(&doc, &Scalars);
    let ids: Vec<Option<&str>> = r.measurements.iter().map(|m| m.id.as_deref()).collect();
    assert_eq!(ids, vec![Some("b"), Some("a"), Some("c"), None]);
    let tokens: Vec<Option<u64>> = r.measurements.iter().map(|m| m.tokens).collect();
    assert_eq!(tokens, vec![None, None, Some(3), None]);
}
