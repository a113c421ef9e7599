use chat_relay::chunk::{parse_chunk, Delta, ParsedDelta};

fn content(s: &str) -> ParsedDelta {
    Delta::Content(s.as_bytes().to_vec())
}

fn finish(s: &str) -> ParsedDelta {
    Delta::Finish(s.as_bytes().to_vec())
}

fn raw(s: &str) -> ParsedDelta {
    Delta::Raw(s.as_bytes().to_vec())
}

#[test]
fn terminator_gives_finish_done() {
    assert_eq!(parse_chunk(b"[DONE]"), vec![finish("done")]);
}

#[test]
fn terminator_must_stand_alone() {
    assert_eq!(parse_chunk(b"[DONE] "), vec![raw("[DONE] ")]);
    assert_eq!(parse_chunk(b" [DONE]"), vec![raw(" [DONE]")]);
    assert_eq!(parse_chunk(b"[done]"), vec![raw("[done]")]);
}

#[test]
fn content_fragment_is_carried() {
    assert_eq!(
        parse_chunk(b"{\"choices\":[{\"delta\":{\"content\":\"He\"}}]}"),
        vec![content("He")]
    );
}

#[test]
fn empty_content_fragment_is_carried() {
    assert_eq!(
        parse_chunk(b"{\"choices\":[{\"delta\":{\"content\":\"\"}}]}"),
        vec![content("")]
    );
}

#[test]
fn content_comes_before_the_finish_of_its_choice() {
    assert_eq!(
        parse_chunk(b"{\"choices\":[{\"delta\":{\"content\":\"llo\"},\"finish_reason\":\"stop\"}]}"),
        vec![content("llo"), finish("stop")]
    );
    assert_eq!(
        parse_chunk(b"{\"choices\":[{\"finish_reason\":\"stop\",\"delta\":{\"content\":\"llo\"}}]}"),
        vec![content("llo"), finish("stop")]
    );
}

#[test]
fn finish_alone_is_carried() {
    assert_eq!(
        parse_chunk(b"{\"choices\":[{\"delta\":{},\"finish_reason\":\"length\"}]}"),
        vec![finish("length")]
    );
}

#[test]
fn empty_or_null_finish_reason_is_none() {
    assert_eq!(
        parse_chunk(b"{\"choices\":[{\"delta\":{\"content\":\"a\"},\"finish_reason\":\"\"}]}"),
        vec![content("a")]
    );
    assert_eq!(
        parse_chunk(b"{\"choices\":[{\"delta\":{\"content\":\"a\"},\"finish_reason\":null}]}"),
        vec![content("a")]
    );
}

#[test]
fn choices_keep_their_order() {
    assert_eq!(
        parse_chunk(
            b"{\"choices\":[{\"delta\":{\"content\":\"a\"}},{\"delta\":{\"content\":\"b\"},\"finish_reason\":\"stop\"},{\"delta\":{\"content\":\"c\"}}]}"
        ),
        vec![content("a"), content("b"), finish("stop"), content("c")]
    );
}

#[test]
fn no_choices_give_nothing() {
    assert_eq!(parse_chunk(b"{\"choices\":[]}"), Vec::<ParsedDelta>::new());
    assert_eq!(parse_chunk(b"{\"id\":\"x\",\"choices\":[{}]}"), Vec::<ParsedDelta>::new());
}

#[test]
fn elements_of_other_shapes_give_nothing() {
    assert_eq!(
        parse_chunk(b"{\"choices\":[1,\"x\",null,[],{\"delta\":5},{\"delta\":{\"content\":7}},{\"finish_reason\":3}]}"),
        Vec::<ParsedDelta>::new()
    );
}

#[test]
fn escapes_in_content_are_resolved() {
    assert_eq!(
        parse_chunk(b"{\"choices\":[{\"delta\":{\"content\":\"a\\n\\\"b\\\" \\u00e9\"}}]}"),
        vec![content("a\n\"b\" \u{e9}")]
    );
}

#[test]
fn malformed_line_comes_back_whole() {
    assert_eq!(parse_chunk(b"{\"choices\":[{\"delta\""), vec![raw("{\"choices\":[{\"delta\"")]);
    assert_eq!(parse_chunk(b"not json"), vec![raw("not json")]);
    assert_eq!(parse_chunk(b""), vec![raw("")]);
}

#[test]
fn json_of_another_shape_comes_back_whole() {
    assert_eq!(parse_chunk(b"[1,2]"), vec![raw("[1,2]")]);
    assert_eq!(parse_chunk(b"\"choices\""), vec![raw("\"choices\"")]);
    assert_eq!(parse_chunk(b"{\"error\":\"x\"}"), vec![raw("{\"error\":\"x\"}")]);
    assert_eq!(parse_chunk(b"{\"choices\":{}}"), vec![raw("{\"choices\":{}}")]);
    assert_eq!(parse_chunk(b"{\"choices\":null}"), vec![raw("{\"choices\":null}")]);
}

#[test]
fn last_choices_member_counts() {
    assert_eq!(
        parse_chunk(b"{\"choices\":5,\"choices\":[{\"delta\":{\"content\":\"x\"}}]}"),
        vec![content("x")]
    );
    assert_eq!(
        parse_chunk(b"{\"choices\":[],\"choices\":5}"),
        vec![raw("{\"choices\":[],\"choices\":5}")]
    );
}

#[test]
fn bytes_that_are_no_utf8_do_not_break_the_parser() {
    assert_eq!(parse_chunk(&[0xff, 0xfe]), vec![Delta::Raw(vec![0xff, 0xfe])]);
}
