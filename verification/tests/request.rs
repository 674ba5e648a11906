use htmlp::runtime::{
    ContentBlock, ContentSource, ModelRequest, PromptFragment, Role, ToolDefinition,
    TEXT_ONLY_IMAGE_NOTE,
};

#[test]
fn image_transport_bytes_do_not_trigger_text_sized_compaction() {
    let request = ModelRequest::builder("vision")
        .fragment(PromptFragment::new(
            ContentSource::ToolOutput {
                tool_name: "read_file".into(),
            },
            Role::User,
            vec![ContentBlock::Image {
                media_type: "image/jpeg".into(),
                base64_data: "A".repeat(1_300_000),
            }],
        ))
        .build();
    assert_eq!(
        request.total_bytes(),
        1_300_000,
        "raw byte attribution is exact"
    );
    assert_eq!(request.estimate().total_tokens(), 8192);
}

#[test]
fn bytes_by_source_attributes_every_category() {
    let request = ModelRequest::builder("test-model")
        .fragment(PromptFragment::text(
            ContentSource::SystemPrompt,
            Role::System,
            "base",
        ))
        .fragment(PromptFragment::text(
            ContentSource::ContextBlock {
                block_id: "workspace".to_string(),
            },
            Role::System,
            "cwd:/repo",
        ))
        .fragment(PromptFragment::text(
            ContentSource::UserMessage,
            Role::User,
            "hello!",
        ))
        .tool(ToolDefinition {
            name: "bash".to_string(),
            description: "run".to_string(),
            input_schema: "{}".to_string(),
        })
        .build();

    let bytes = request.bytes_by_source();
    assert_eq!(
        bytes.get(&ContentSource::SystemPrompt).unwrap(),
        4,
        "system prompt bytes = len('base')"
    );
    assert_eq!(
        bytes
            .get(&ContentSource::ContextBlock {
                block_id: "workspace".to_string()
            })
            .unwrap(),
        9,
        "context block bytes = len('cwd:/repo')"
    );
    assert_eq!(
        bytes.get(&ContentSource::UserMessage).unwrap(),
        6,
        "user bytes = len('hello!')"
    );
    assert!(
        bytes.get(&ContentSource::ToolDefinitions).unwrap() >= 9,
        "tool defs counted (name+description+schema)"
    );
    assert_eq!(
        bytes.values().iter().sum::<usize>(),
        request.total_bytes(),
        "totals agree"
    );
}

#[test]
fn without_image_blocks_swaps_notes_and_keeps_attribution() {
    let request = ModelRequest::builder("zai/glm-5.3")
        .fragment(PromptFragment::new(
            ContentSource::UserMessage,
            Role::User,
            vec![
                ContentBlock::Text {
                    text: "what is this?".into(),
                },
                ContentBlock::Image {
                    media_type: "image/png".into(),
                    base64_data: "aGVsbG8=".into(),
                },
            ],
        ))
        .fragment(PromptFragment::text(
            ContentSource::SystemPrompt,
            Role::System,
            "sys",
        ))
        .build();

    let replaced = request.without_image_blocks();
    let blocks = replaced.fragments()[0].content();
    assert_eq!(
        blocks[0],
        ContentBlock::Text {
            text: "what is this?".into()
        },
        "neighboring text blocks pass through"
    );
    assert_eq!(
        blocks[1],
        ContentBlock::Text {
            text: TEXT_ONLY_IMAGE_NOTE.to_string()
        },
        "the image block becomes the note"
    );
    assert_eq!(blocks.len(), replaced.fragments()[0].content().len());
    assert_eq!(
        replaced.fragments()[0].source(),
        &ContentSource::UserMessage,
        "attribution is preserved"
    );
    assert_eq!(
        replaced.fragments()[0].role(),
        Role::User,
        "role is preserved"
    );
    assert_eq!(
        replaced.fragments()[1],
        request.fragments()[1],
        "fragments without images are untouched"
    );
}
