use tome::MdAdapter;
use tome::TextAdapter;
use tome::TxtAdapter;
use tome::pick_adapter;
use tome::scroll::clamp_scroll;
use tome::scroll::max_scroll;

#[test]
fn handles_markdown_as_text() {
    let out = MdAdapter.render_lines(b"# Title\npara");
    assert_eq!(out, vec!["# Title", "para"]);
}

#[test]
fn splits_lines() {
    let out = TxtAdapter.render_lines(b"a\r\nb\nc");
    assert_eq!(out, vec!["a", "b", "c"]);
}

#[test]
fn adapter_names_and_extensions() {
    assert_eq!(TxtAdapter.name(), "txt");
    assert_eq!(TxtAdapter.extensions(), &["txt", "text", "log"]);
    assert_eq!(MdAdapter.name(), "md");
    assert_eq!(MdAdapter.extensions(), &["md", "markdown"]);
}

#[test]
fn renders_invalid_utf8_lossily() {
    let out = TxtAdapter.render_lines(b"ok\n\xff\xfe");
    assert_eq!(out.len(), 2);
    assert_eq!(out[0], "ok");
}

#[test]
fn picks_adapter_by_extension() {
    assert_eq!(pick_adapter("txt"), 0);
    assert_eq!(pick_adapter("text"), 0);
    assert_eq!(pick_adapter("log"), 0);
    assert_eq!(pick_adapter("md"), 1);
    assert_eq!(pick_adapter("markdown"), 1);
    // matching ignores ASCII case
    assert_eq!(pick_adapter("MD"), 1);
    assert_eq!(pick_adapter("Markdown"), 1);
    // unclaimed extensions fall back to the plain-text adapter
    assert_eq!(pick_adapter("rs"), 0);
    assert_eq!(pick_adapter(""), 0);
}

#[test]
fn scroll_clamping() {
    assert_eq!(max_scroll(10, 4), 6);
    assert_eq!(max_scroll(3, 10), 0);
    assert_eq!(clamp_scroll(9, 10, 4), 6);
    assert_eq!(clamp_scroll(5, 10, 4), 5);
    assert_eq!(clamp_scroll(1, 3, 10), 0);
}
