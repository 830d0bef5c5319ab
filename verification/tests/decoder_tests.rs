//! Behaviour of the streaming chunk decoder on concrete wire inputs.

use chunk_decoder::{decode_all, decode_line, ChatChunk, ChunkDecoder, FinishReason, PullResult};

fn content_of(chunk: &ChatChunk, i: usize) -> Option<&str> {
    chunk.choices[i].delta.as_ref().and_then(|d| d.content.as_deref())
}

fn finish_of(chunk: &ChatChunk, i: usize) -> Option<&str> {
    chunk.choices[i].finish_reason.as_deref()
}

#[test]
fn two_chunks_in_order() {
    let mut input = Vec::new();
    input.extend_from_slice(b"data: {\"choices\":[{\"delta\":{\"content\":\"Hi\"}}]}\n");
    input.extend_from_slice(b"data: {\"choices\":[{\"delta\":{},\"finish_reason\":\"stop\"}]}\n");
    let chunks = decode_all(&input);
    assert_eq!(chunks.len(), 2);

    assert_eq!(chunks[0].choices.len(), 1);
    assert_eq!(content_of(&chunks[0], 0), Some("Hi"));
    assert_eq!(finish_of(&chunks[0], 0), None);
    assert_eq!(chunks[0].choices[0].finish_reason_kind(), None);

    assert_eq!(chunks[1].choices.len(), 1);
    assert!(chunks[1].choices[0].delta.is_some());
    assert_eq!(content_of(&chunks[1], 0), None);
    assert_eq!(finish_of(&chunks[1], 0), Some("stop"));
    assert_eq!(chunks[1].choices[0].finish_reason_kind(), Some(FinishReason::Stop));
}

#[test]
fn blank_and_malformed_lines_yield_one_chunk() {
    let mut input = Vec::new();
    input.extend_from_slice(b"\n");
    input.extend_from_slice(b"data: not-json\n");
    input.extend_from_slice(b"data: {\"choices\":[]}\n");
    let chunks = decode_all(&input);
    assert_eq!(chunks.len(), 1);
    assert_eq!(chunks[0].choices.len(), 0);
}

#[test]
fn n_valid_lines_decode_in_order() {
    let mut input = Vec::new();
    input.extend_from_slice(b"data: {\"choices\":[{\"delta\":{\"content\":\"a\"}}]}\n");
    input.extend_from_slice(b"data: {\"choices\":[{\"delta\":{\"content\":\"b\"}}]}\n");
    input.extend_from_slice(b"data: {\"choices\":[{\"delta\":{\"content\":\"c\"}}]}\n");
    let chunks = decode_all(&input);
    assert_eq!(chunks.len(), 3);
    assert_eq!(content_of(&chunks[0], 0), Some("a"));
    assert_eq!(content_of(&chunks[1], 0), Some("b"));
    assert_eq!(content_of(&chunks[2], 0), Some("c"));
}

#[test]
fn blank_lines_do_not_break_sequencing() {
    let mut input = Vec::new();
    input.extend_from_slice(b"\n");
    input.extend_from_slice(b"data: {\"choices\":[{\"delta\":{\"content\":\"a\"}}]}\n");
    input.extend_from_slice(b"\n");
    input.extend_from_slice(b"   \n");
    input.extend_from_slice(b"data: {\"choices\":[{\"delta\":{\"content\":\"b\"}}]}\n");
    input.extend_from_slice(b"\n");
    let chunks = decode_all(&input);
    assert_eq!(chunks.len(), 2);
    assert_eq!(content_of(&chunks[0], 0), Some("a"));
    assert_eq!(content_of(&chunks[1], 0), Some("b"));
}

#[test]
fn malformed_line_is_skipped_and_later_lines_decode() {
    let mut input = Vec::new();
    input.extend_from_slice(b"data: {\"choices\":[{\"delta\":{\"content\":\"a\"}}]}\n");
    input.extend_from_slice(b"data: {\"choices\":\n");
    input.extend_from_slice(b"data: {\"choices\":[{\"delta\":{\"content\":\"b\"}}]}\n");
    let chunks = decode_all(&input);
    assert_eq!(chunks.len(), 2);
    assert_eq!(content_of(&chunks[0], 0), Some("a"));
    assert_eq!(content_of(&chunks[1], 0), Some("b"));
}

#[test]
fn line_split_across_reads_decodes_whole() {
    let mut d = ChunkDecoder::new();
    d.feed(b"data: {\"choi");
    assert!(matches!(d.next_chunk(), PullResult::NeedInput));
    d.feed(b"ces\":[]}\n");
    match d.next_chunk() {
        PullResult::Chunk(c) => assert_eq!(c.choices.len(), 0),
        _ => panic!("expected a chunk"),
    }
    d.close();
    assert!(matches!(d.next_chunk(), PullResult::Finished));
}

#[test]
fn closing_without_bytes_finishes_cleanly() {
    let mut d = ChunkDecoder::new();
    d.close();
    assert!(matches!(d.next_chunk(), PullResult::Finished));
    assert!(matches!(d.next_chunk(), PullResult::Finished));
}

#[test]
fn unterminated_tail_decodes_after_close() {
    let mut d = ChunkDecoder::new();
    d.feed(b"data: {\"choices\":[{\"delta\":{\"content\":\"end\"}}]}");
    assert!(matches!(d.next_chunk(), PullResult::NeedInput));
    d.close();
    match d.next_chunk() {
        PullResult::Chunk(c) => assert_eq!(content_of(&c, 0), Some("end")),
        _ => panic!("expected a chunk"),
    }
    assert!(matches!(d.next_chunk(), PullResult::Finished));
}

#[test]
fn several_lines_in_one_read() {
    let mut d = ChunkDecoder::new();
    d.feed(b"data: {\"choices\":[]}\ndata: {\"choices\":[]}\ndata: {\"choi");
    assert!(matches!(d.next_chunk(), PullResult::Chunk(_)));
    assert!(matches!(d.next_chunk(), PullResult::Chunk(_)));
    assert!(matches!(d.next_chunk(), PullResult::NeedInput));
    d.feed(b"ces\":[]}\n");
    assert!(matches!(d.next_chunk(), PullResult::Chunk(_)));
}

#[test]
fn unprefixed_line_is_skipped() {
    let chunks = decode_all(b"event: ping\ndata: {\"choices\":[]}\n");
    assert_eq!(chunks.len(), 1);
}

#[test]
fn carriage_return_is_trimmed() {
    let chunks = decode_all(b"data: {\"choices\":[]}\r\n");
    assert_eq!(chunks.len(), 1);
}

#[test]
fn prefix_without_space_decodes() {
    let chunks = decode_all(b"data:{\"choices\":[]}\n");
    assert_eq!(chunks.len(), 1);
}

#[test]
fn prefix_with_empty_payload_is_skipped() {
    let chunks = decode_all(b"data:\ndata: {\"choices\":[]}\n");
    assert_eq!(chunks.len(), 1);
}

#[test]
fn terminator_sentinel_line_is_skipped() {
    let chunks = decode_all(b"data: {\"choices\":[]}\ndata: [DONE]\n");
    assert_eq!(chunks.len(), 1);
}

#[test]
fn escapes_in_content_are_decoded() {
    let chunks = decode_all(b"data: {\"choices\":[{\"delta\":{\"content\":\"a\\nb\"}}]}\n");
    assert_eq!(chunks.len(), 1);
    assert_eq!(content_of(&chunks[0], 0), Some("a\nb"));
}

#[test]
fn unknown_top_level_fields_are_ignored() {
    let chunks =
        decode_all(b"data: {\"id\":\"x\",\"object\":\"chat.completion.chunk\",\"choices\":[]}\n");
    assert_eq!(chunks.len(), 1);
}

#[test]
fn choices_of_wrong_shape_are_skipped() {
    assert_eq!(decode_all(b"data: {\"choices\":42}\n").len(), 0);
    assert_eq!(decode_all(b"data: {\"nochoices\":[]}\n").len(), 0);
    assert_eq!(decode_all(b"data: [1,2,3]\n").len(), 0);
}

#[test]
fn null_finish_reason_reads_as_absent() {
    let chunks =
        decode_all(b"data: {\"choices\":[{\"delta\":{},\"finish_reason\":null}]}\n");
    assert_eq!(chunks.len(), 1);
    assert_eq!(finish_of(&chunks[0], 0), None);
    assert_eq!(chunks[0].choices[0].finish_reason_kind(), None);
}

#[test]
fn decode_line_classifies_single_lines() {
    assert!(decode_line(b"data: {\"choices\":[]}\n").is_some());
    assert!(decode_line(b"data: {\"choices\":[]}").is_some());
    assert!(decode_line(b"   \n").is_none());
    assert!(decode_line(b"").is_none());
    assert!(decode_line(b"nonsense\n").is_none());
    assert!(decode_line(b"data: not-json\n").is_none());
}

#[test]
fn finish_reason_kinds_classify_each_marker() {
    let cases: Vec<(&[u8], Option<FinishReason>)> = vec![
        (b"data: {\"choices\":[{\"finish_reason\":\"stop\"}]}\n", Some(FinishReason::Stop)),
        (b"data: {\"choices\":[{\"finish_reason\":\"length\"}]}\n", Some(FinishReason::Length)),
        (
            b"data: {\"choices\":[{\"finish_reason\":\"tool_calls\"}]}\n",
            Some(FinishReason::ToolCalls),
        ),
        (
            b"data: {\"choices\":[{\"finish_reason\":\"content_filter\"}]}\n",
            Some(FinishReason::ContentFilter),
        ),
        (b"data: {\"choices\":[{\"finish_reason\":\"other\"}]}\n", None),
        (b"data: {\"choices\":[{}]}\n", None),
    ];
    for (input, expected) in cases {
        let chunks = decode_all(input);
        assert_eq!(chunks.len(), 1);
        assert_eq!(chunks[0].choices[0].finish_reason_kind(), expected);
    }
}

#[test]
fn empty_input_yields_nothing() {
    assert_eq!(decode_all(b"").len(), 0);
}

#[test]
fn multiple_choices_keep_their_order() {
    let chunks = decode_all(
        b"data: {\"choices\":[{\"delta\":{\"content\":\"x\"}},{\"delta\":{\"content\":\"y\"}}]}\n",
    );
    assert_eq!(chunks.len(), 1);
    assert_eq!(chunks[0].choices.len(), 2);
    assert_eq!(content_of(&chunks[0], 0), Some("x"));
    assert_eq!(content_of(&chunks[0], 1), Some("y"));
}

#[test]
fn byte_by_byte_feeding_decodes() {
    let input: &[u8] = b"data: {\"choices\":[{\"delta\":{\"content\":\"Hi\"}}]}\ndata: {\"choices\":[]}\n";
    let mut d = ChunkDecoder::new();
    let mut got = Vec::new();
    for &b in input.iter() {
        d.feed(&[b]);
        while let PullResult::Chunk(c) = d.next_chunk() {
            got.push(c);
        }
    }
    d.close();
    while let PullResult::Chunk(c) = d.next_chunk() {
        got.push(c);
    }
    assert_eq!(got.len(), 2);
    assert_eq!(content_of(&got[0], 0), Some("Hi"));
    assert_eq!(got[1].choices.len(), 0);
}
