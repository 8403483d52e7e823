use halo::json::Json;
use halo::llm::CompletionStream;

fn s(x: &str) -> String {
    x.to_string()
}

fn chunk_json(content: &str) -> Json {
    Json::Object(vec![(
        s("choices"),
        Json::Array(vec![Json::Object(vec![(
            s("delta"),
            Json::Object(vec![(s("content"), Json::Str(s(content)))]),
        )])]),
    )])
}

#[test]
fn payloads_come_out_per_complete_line() {
    let mut st = CompletionStream::new();
    let p = st.feed(b"data: {\"a\":1}\n\ndata: [DONE]\nevent: x\ndata:  part");
    assert_eq!(p, vec![s("{\"a\":1}")]);
    let p2 = st.feed(b"ial \r\n");
    assert_eq!(p2, vec![s("partial")]);
    assert!(st.feed(b"").is_empty());
}

#[test]
fn chunks_split_anywhere_give_the_same_payloads() {
    let whole = b"data: one\ndata: two\n";
    let mut a = CompletionStream::new();
    let all = a.feed(whole);
    let mut b = CompletionStream::new();
    let mut pieces = Vec::new();
    for c in whole.chunks(3) {
        pieces.extend(b.feed(c));
    }
    assert_eq!(all, pieces);
    assert_eq!(all, vec![s("one"), s("two")]);
}

#[test]
fn accepted_tokens_make_the_output() {
    let mut st = CompletionStream::new();
    assert_eq!(st.accept(Some(&chunk_json("  Hello"))), Some(s("  Hello")));
    assert_eq!(st.accept(Some(&chunk_json(""))), None);
    assert_eq!(st.accept(None), None);
    assert_eq!(st.accept(Some(&Json::Object(vec![]))), None);
    assert_eq!(st.accept(Some(&chunk_json(" world \n"))), Some(s(" world \n")));
    assert_eq!(st.finish(), "Hello world");
}

#[test]
fn invalid_utf8_is_replaced() {
    let mut st = CompletionStream::new();
    let p = st.feed(b"data: a\xffb\n");
    assert_eq!(p, vec![s("a\u{fffd}b")]);
}
