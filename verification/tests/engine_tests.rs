use ghosttype::config::{
    build_key_string, is_modifier_key, name_to_vk, parse_accept_key, parse_hex_color, vk_to_name,
};
use ghosttype::engine::{
    capture_binding, debounce_elapsed, route_key, KeyRoute, handle_key, ignored_app_entry, is_accept_key, is_ignored_app, overlay_update,
    type_char, KeyStep, OverlayUpdate,
};
use ghosttype::input::{KeyEvent, Modifiers};
use ghosttype::ngram_cache::{NgramCache, NgramTables};
use ghosttype::overlay::{
    bg_colorref, caret_anchor, caret_step, cursor_anchor, fallback_position, fixed_anchor, popup_size,
    text_colorref, CaretStep,
};
use ghosttype::state::AppState;
use ghosttype::suggest::{finalize_buffer, refresh_suggestion, suggestion_for};
use ghosttype::telegram_import::{
    count_ngrams, count_word_lists, extract_words, message_word_lists, MessageText, TextPart, TgMessage,
};

fn s(x: &str) -> String {
    x.to_string()
}

fn tables() -> NgramTables {
    NgramTables {
        unigrams: vec![(s("hello"), 5), (s("help"), 3), (s("helium"), 1), (s("he"), 9), (s("here"), 2)],
        bigrams: vec![(s("i"), s("have"), 5), (s("i"), s("am"), 10), (s("you"), s("are"), 3)],
        trigrams: vec![(s("i"), s("am"), s("here"), 2), (s("i"), s("am"), s("happy"), 4)],
    }
}

fn no_mods() -> Modifiers {
    Modifiers { ctrl: false, shift: false, alt: false }
}

fn key(vk: u32) -> KeyEvent {
    KeyEvent { vk_code: vk, scan_code: 0, is_keydown: true }
}

#[test]
fn trigram_followers_come_most_frequent_first() {
    let c = NgramCache::load_from_db(&tables());
    assert_eq!(c.trigram_predict("i", "am", ""), Some(s("happy")));
    assert_eq!(c.trigram_predict("i", "am", "he"), Some(s("here")));
    assert_eq!(c.trigram_predict("i", "am", "x"), None);
    assert_eq!(c.trigram_predict("you", "am", ""), None);
}

#[test]
fn bigram_followers_come_most_frequent_first() {
    let c = NgramCache::load_from_db(&tables());
    assert_eq!(c.bigram_predict("i", ""), Some(s("am")));
    assert_eq!(c.bigram_predict("i", "h"), Some(s("have")));
    assert_eq!(c.bigram_predict("we", ""), None);
}

#[test]
fn unigram_completion_skips_the_prefix_itself() {
    let c = NgramCache::load_from_db(&tables());
    // "he" is itself the most frequent word starting with "he"
    assert_eq!(c.unigram_predict("he"), Some(s("hello")));
    assert_eq!(c.unigram_predict("hel"), Some(s("hello")));
    assert_eq!(c.unigram_predict("help"), None);
    assert_eq!(c.unigram_predict("zz"), None);
}

#[test]
fn prefix_buckets_keep_only_the_five_best() {
    let mut t = tables();
    t.unigrams = (0..8).map(|i| (format!("ab{}", i), i as i64)).collect();
    let c = NgramCache::load_from_db(&t);
    assert_eq!(c.unigram_predict("ab"), Some(s("ab7")));
    assert_eq!(c.unigram_count(), 8);
}

#[test]
fn later_unigram_rows_replace_earlier_ones() {
    let mut t = tables();
    t.unigrams = vec![(s("xaa"), 1), (s("xab"), 2), (s("xaa"), 7)];
    let c = NgramCache::load_from_db(&t);
    assert_eq!(c.unigram_predict("xa"), Some(s("xaa")));
    assert_eq!(c.unigram_count(), 2);
}

#[test]
fn key_counts_count_distinct_words_and_pairs() {
    let c = NgramCache::load_from_db(&tables());
    assert_eq!(c.unigram_count(), 5);
    assert_eq!(c.bigram_key_count(), 2);
    assert_eq!(c.trigram_key_count(), 1);
}

#[test]
fn refresh_reloads_everything() {
    let mut c = NgramCache::load_from_db(&tables());
    c.refresh(&NgramTables { unigrams: vec![], bigrams: vec![], trigrams: vec![] });
    assert_eq!(c.unigram_predict("he"), None);
    assert_eq!(c.bigram_key_count(), 0);
    assert_eq!(c.trigram_key_count(), 0);
}

#[test]
fn completes_the_last_word_from_the_trigram() {
    let c = NgramCache::load_from_db(&tables());
    let mut st = AppState::default();
    st.typed_buffer = s("i am he");
    refresh_suggestion(&c, &mut st, 2);
    assert_eq!(st.current_full, Some(s("here")));
    assert_eq!(st.current_suffix, Some(s("re")));
}

#[test]
fn typed_text_is_lower_cased_and_spaces_collapsed() {
    let c = NgramCache::load_from_db(&tables());
    let mut st = AppState::default();
    st.typed_buffer = s("  I \t AM   HA");
    refresh_suggestion(&c, &mut st, 2);
    assert_eq!(st.current_full, Some(s("happy")));
    assert_eq!(st.current_suffix, Some(s("ppy")));
}

#[test]
fn a_finished_word_gets_the_next_word() {
    let c = NgramCache::load_from_db(&tables());
    let mut st = AppState::default();
    st.typed_buffer = s("I am ");
    refresh_suggestion(&c, &mut st, 2);
    assert_eq!(st.current_full, Some(s("I am happy")));
    assert_eq!(st.current_suffix, Some(s("happy")));
    // no follower of "he": nothing is offered, and no completion is tried
    st.typed_buffer = s("you he ");
    refresh_suggestion(&c, &mut st, 2);
    assert_eq!(st.current_full, None);
    assert_eq!(st.current_suffix, None);
}

#[test]
fn next_word_after_a_finished_word_in_cyrillic() {
    let t = NgramTables {
        unigrams: vec![],
        bigrams: vec![],
        trigrams: vec![(s("я"), s("не"), s("знаю"), 9)],
    };
    let c = NgramCache::load_from_db(&t);
    let mut st = AppState::default();
    st.typed_buffer = s("я не ");
    refresh_suggestion(&c, &mut st, 2);
    assert_eq!(st.current_suffix, Some(s("знаю")));
    assert_eq!(st.current_full, Some(s("я не знаю")));
}

#[test]
fn the_minimum_prefix_length_is_honoured() {
    let t = NgramTables { unigrams: vec![(s("hello"), 5)], bigrams: vec![], trigrams: vec![] };
    let c = NgramCache::load_from_db(&t);
    let mut st = AppState::default();
    st.typed_buffer = s("hel");
    refresh_suggestion(&c, &mut st, 4);
    assert_eq!(st.current_full, None);
    assert_eq!(st.current_suffix, None);
    st.typed_buffer = s("hell");
    refresh_suggestion(&c, &mut st, 4);
    assert_eq!(st.current_full, Some(s("hello")));
    assert_eq!(st.current_suffix, Some(s("o")));
    st.typed_buffer = s("hel");
    refresh_suggestion(&c, &mut st, 2);
    assert_eq!(st.current_suffix, Some(s("lo")));
}

#[test]
fn one_byte_prefix_gets_no_suggestion() {
    let c = NgramCache::load_from_db(&tables());
    let mut st = AppState::default();
    st.typed_buffer = s("i am h");
    st.current_full = Some(s("old"));
    st.current_suffix = Some(s("d"));
    refresh_suggestion(&c, &mut st, 2);
    assert_eq!(st.current_full, None);
    assert_eq!(st.current_suffix, None);
}

#[test]
fn two_byte_letter_is_a_long_enough_prefix() {
    let mut t = tables();
    t.unigrams = vec![(s("знаю"), 3), (s("за"), 1)];
    let c = NgramCache::load_from_db(&t);
    let mut st = AppState::default();
    st.typed_buffer = s("я з");
    refresh_suggestion(&c, &mut st, 2);
    assert_eq!(st.current_full, Some(s("знаю")));
    assert_eq!(st.current_suffix, Some(s("наю")));
}

#[test]
fn empty_or_wordless_text_clears_the_suggestion() {
    let c = NgramCache::load_from_db(&tables());
    for text in ["", "   ", "!!! ??"] {
        let mut st = AppState::default();
        st.typed_buffer = s(text);
        st.current_full = Some(s("x"));
        st.current_suffix = Some(s("y"));
        refresh_suggestion(&c, &mut st, 2);
        assert_eq!(st.current_full, None);
        assert_eq!(st.current_suffix, None);
    }
}

#[test]
fn exact_word_gives_no_suffix() {
    let mut t = tables();
    t.trigrams = vec![(s("i"), s("am"), s("here"), 2)];
    t.unigrams = vec![];
    let c = NgramCache::load_from_db(&t);
    let mut st = AppState::default();
    st.typed_buffer = s("i am here");
    refresh_suggestion(&c, &mut st, 2);
    assert_eq!(st.current_suffix, None);
}

#[test]
fn finalize_clears_text_and_suggestion() {
    let mut st = AppState::default();
    st.typed_buffer = s("abc");
    st.current_full = Some(s("abcd"));
    st.current_suffix = Some(s("d"));
    st.engine_running = true;
    finalize_buffer(&mut st);
    assert_eq!(st.typed_buffer, "");
    assert_eq!(st.current_full, None);
    assert_eq!(st.current_suffix, None);
    assert!(st.engine_running);
}

#[test]
fn clear_suggestion_keeps_the_text() {
    let mut st = AppState::default();
    st.typed_buffer = s("abc");
    st.current_full = Some(s("abcd"));
    st.current_suffix = Some(s("d"));
    st.clear_suggestion();
    assert_eq!(st.typed_buffer, "abc");
    assert_eq!(st.current_full, None);
    assert_eq!(st.current_suffix, None);
}

#[test]
fn accepting_types_the_rest_of_the_word() {
    let mut st = AppState::default();
    st.typed_buffer = s("i am he");
    st.current_full = Some(s("here"));
    st.current_suffix = Some(s("re"));
    let step = handle_key(&mut st, &key(0x09), "Tab", no_mods());
    assert!(matches!(step, KeyStep::Accept(ref t) if t == "re"));
    assert_eq!(st.typed_buffer, "i am here");
    assert_eq!(st.current_suffix, None);
}

#[test]
fn accept_without_suggestion_does_nothing() {
    let mut st = AppState::default();
    st.typed_buffer = s("ab");
    let step = handle_key(&mut st, &key(0x09), "Tab", no_mods());
    assert!(matches!(step, KeyStep::Ignore));
    assert_eq!(st.typed_buffer, "ab");
}

#[test]
fn editing_keys() {
    let mut st = AppState::default();
    st.typed_buffer = s("abя");
    assert!(matches!(handle_key(&mut st, &key(0x08), "Tab", no_mods()), KeyStep::Edited));
    assert_eq!(st.typed_buffer, "ab");
    assert!(matches!(handle_key(&mut st, &key(0x20), "Tab", no_mods()), KeyStep::Edited));
    assert_eq!(st.typed_buffer, "ab ");
    st.current_suffix = Some(s("x"));
    assert!(matches!(handle_key(&mut st, &key(0x1B), "Tab", no_mods()), KeyStep::Hide));
    assert_eq!(st.current_suffix, None);
    assert_eq!(st.typed_buffer, "ab ");
    assert!(matches!(handle_key(&mut st, &key(0x41), "Tab", no_mods()), KeyStep::NeedChar));
    assert!(type_char(&mut st, Some('q')));
    assert!(!type_char(&mut st, Some('\u{7}')));
    assert!(!type_char(&mut st, None));
    assert_eq!(st.typed_buffer, "ab q");
    assert!(matches!(handle_key(&mut st, &key(0x0D), "Tab", no_mods()), KeyStep::Hide));
    assert_eq!(st.typed_buffer, "");
}

#[test]
fn typed_text_keeps_its_last_200_characters() {
    let mut st = AppState::default();
    st.typed_buffer = "a".repeat(200);
    assert!(type_char(&mut st, Some('b')));
    assert_eq!(st.typed_buffer.chars().count(), 200);
    assert!(st.typed_buffer.ends_with('b'));
    // 150 two-byte letters take 300 bytes but are kept whole
    let mut st2 = AppState::default();
    st2.typed_buffer = "я".repeat(150);
    assert!(type_char(&mut st2, Some('ж')));
    assert_eq!(st2.typed_buffer.chars().count(), 151);
}

#[test]
fn overlay_follows_the_suggestion() {
    let mut st = AppState::default();
    st.overlay_visible = true;
    st.current_suffix = Some(s("llo"));
    assert!(matches!(overlay_update(&st), OverlayUpdate::Show(ref t) if t == "llo"));
    st.current_suffix = None;
    assert!(matches!(overlay_update(&st), OverlayUpdate::Hide));
    st.overlay_visible = false;
    assert!(matches!(overlay_update(&st), OverlayUpdate::Unchanged));
}

#[test]
fn accept_key_rules() {
    let ctrl = Modifiers { ctrl: true, shift: false, alt: false };
    assert!(is_accept_key(&key(0x09), "Tab", no_mods()));
    assert!(is_accept_key(&key(0x09), "Tab", ctrl));
    assert!(!is_accept_key(&key(0x20), "Tab", no_mods()));
    assert!(is_accept_key(&key(0x20), "Ctrl+Space", ctrl));
    assert!(!is_accept_key(&key(0x20), "Ctrl+Space", no_mods()));
    assert!(!is_accept_key(&key(0x27), "Right", ctrl));
    assert!(is_accept_key(&key(0x27), "Right", no_mods()));
    assert!(is_accept_key(&key(0xA3), "RCtrl", ctrl));
}

#[test]
fn key_names_and_codes() {
    assert_eq!(vk_to_name(0x09), "Tab");
    assert_eq!(vk_to_name(0x1B), "Escape");
    assert_eq!(vk_to_name(0x41), "A");
    assert_eq!(vk_to_name(0x37), "7");
    assert_eq!(vk_to_name(0xDC), "\\");
    assert_eq!(vk_to_name(0xFF), "VK0xFF");
    assert_eq!(vk_to_name(0x07), "VK0x07");
    assert_eq!(vk_to_name(0x1234), "VK0x1234");
    assert_eq!(name_to_vk("Esc"), 0x1B);
    assert_eq!(name_to_vk("Right Arrow"), 0x25);
    assert_eq!(name_to_vk("x"), 0x58);
    assert_eq!(name_to_vk("'"), 0xDE);
    assert_eq!(name_to_vk("Nope"), 0x09);
    assert_eq!(name_to_vk("F11"), 0x7A);
    assert!(is_modifier_key(0xA2));
    assert!(!is_modifier_key(0x41));
}

#[test]
fn accept_key_texts() {
    assert_eq!(parse_accept_key("Tab"), (0x09, false, false, false));
    assert_eq!(parse_accept_key("Ctrl+Space"), (0x20, true, false, false));
    assert_eq!(parse_accept_key("Alt + x"), (0x58, false, false, true));
    assert_eq!(parse_accept_key("Ctrl+Shift+Alt+F5"), (0x74, true, true, true));
    assert_eq!(parse_accept_key("Shift+Tab+Enter"), (0x0D, false, true, false));
    assert_eq!(parse_accept_key(""), (0x09, false, false, false));
}

#[test]
fn captured_binding_reads_back() {
    assert_eq!(build_key_string(0x20, true, false, false), "Ctrl+Space");
    assert_eq!(build_key_string(0x41, false, true, true), "Shift+Alt+A");
    let mods = Modifiers { ctrl: true, shift: true, alt: false };
    let text = capture_binding(0xBA, mods).unwrap();
    assert_eq!(text, "Ctrl+Shift+;");
    assert_eq!(parse_accept_key(&text), (0xBA, true, true, false));
    assert_eq!(capture_binding(0xA0, mods), None);
}

#[test]
fn colours() {
    assert_eq!(parse_hex_color("#C8C8E0"), (200, 200, 224));
    assert_eq!(parse_hex_color("##1c1c2e"), (28, 28, 46));
    assert_eq!(parse_hex_color("abc"), (160, 160, 160));
    assert_eq!(parse_hex_color("#zz0000"), (160, 0, 0));
    assert_eq!(parse_hex_color("+f+f+f"), (15, 15, 15));
    assert_eq!(text_colorref((1, 2, 3)), 0x030201);
    assert_eq!(bg_colorref((1, 1, 1)), 0x020202);
    assert_eq!(bg_colorref((28, 28, 46)), 0x2E1C1C);
}

#[test]
fn overlay_geometry() {
    assert_eq!(popup_size(10, 5, 7), (40, 20));
    assert_eq!(popup_size(100, 16, 7), (114, 30));
    assert_eq!(caret_anchor(10, 100, 120, 30, true), (10, 66));
    assert_eq!(caret_anchor(10, 100, 120, 30, false), (10, 124));
    assert_eq!(cursor_anchor(100, 200, 40, 20, true), (80, 156));
    assert_eq!(cursor_anchor(10, 30, 40, 20, true), (4, 50));
    assert_eq!(fixed_anchor(0, 1000, 800, 100, 30), (450, 710));
    assert_eq!(fixed_anchor(0, -3, 800, 100, 30), (-51, 710));
}

#[test]
fn ignored_apps() {
    let apps = vec![s("telegram"), s("OBSIDIAN.exe")];
    assert!(is_ignored_app("Telegram.exe", &apps));
    assert!(is_ignored_app("obsidian.exe", &apps));
    assert!(!is_ignored_app("chrome.exe", &apps));
    assert!(!is_ignored_app("chrome.exe", &vec![]));
    assert_eq!(ignored_app_entry("  Chrome.EXE "), Some(s("chrome.exe")));
    assert_eq!(ignored_app_entry("   "), None);
}

fn msg(t: &str, from: Option<&str>, text: MessageText) -> TgMessage {
    TgMessage { msg_type: Some(s(t)), from_id: from.map(s), text }
}

#[test]
fn words_of_a_message() {
    assert_eq!(extract_words("Don't stop-me NOW, a b ж"), vec![s("don't"), s("stop-me"), s("now"), s("ж")]);
}

#[test]
fn counting_ngrams() {
    let msgs = vec![
        msg("message", Some("user1"), MessageText::Plain(s("Hello hello world"))),
        msg("service", Some("user1"), MessageText::Plain(s("hello there"))),
        msg(
            "message",
            Some("user2"),
            MessageText::Parts(vec![TextPart::Text(s("hello ")), TextPart::NoText, TextPart::Text(s("world"))]),
        ),
        msg("message", Some("user1"), MessageText::Other),
        msg("message", Some("user1"), MessageText::Plain(s("a ! b"))),
    ];
    let (counts, stats) = count_ngrams(&msgs, None);
    assert_eq!(stats.messages, 2);
    assert_eq!(stats.unigrams, 2);
    assert_eq!(stats.bigrams, 2);
    assert_eq!(stats.trigrams, 1);
    let mut uni = counts.unigram_rows();
    uni.sort();
    assert_eq!(uni, vec![(s("hello"), 3), (s("world"), 2)]);
    let mut bi = counts.bigram_rows();
    bi.sort();
    assert_eq!(bi, vec![(s("hello"), s("hello"), 1), (s("hello"), s("world"), 2)]);
    assert_eq!(counts.trigram_rows(), vec![(s("hello"), s("hello"), s("world"), 1)]);
    let (_, only1) = count_ngrams(&msgs, Some("user1"));
    assert_eq!(only1.messages, 1);
    assert_eq!(only1.unigrams, 2);
}

#[test]
fn next_word_is_predicted_after_a_space() {
    let c = NgramCache::load_from_db(&tables());
    let words = vec![s("i"), s("am")];
    let (full, suffix) = suggestion_for(&c, "I am  ", "i am ", &words, 2);
    assert_eq!(full, Some(s("I am happy")));
    assert_eq!(suffix, Some(s("happy")));
    let (full, suffix) = suggestion_for(&c, "we ", "we ", &vec![s("we")], 2);
    assert_eq!((full, suffix), (None, None));
}

#[test]
fn last_given_word_is_completed_from_its_context() {
    let c = NgramCache::load_from_db(&tables());
    let (full, suffix) = suggestion_for(&c, "i HA", "i ha", &vec![s("i"), s("ha")], 2);
    assert_eq!(full, Some(s("have")));
    assert_eq!(suffix, Some(s("ve")));
    let (full, suffix) = suggestion_for(&c, "", "", &vec![s("he")], 2);
    assert_eq!((full, suffix), (None, None));
    let (full, suffix) = suggestion_for(&c, "x", "x", &vec![], 2);
    assert_eq!((full, suffix), (None, None));
}

#[test]
fn counting_given_word_lists() {
    let lists = vec![vec![s("a"), s("b"), s("a"), s("b")], vec![], vec![s("b")]];
    let (counts, stats) = count_word_lists(&lists);
    assert_eq!(stats.messages, 3);
    assert_eq!(stats.unigrams, 2);
    assert_eq!(stats.bigrams, 2);
    assert_eq!(stats.trigrams, 2);
    let mut uni = counts.unigram_rows();
    uni.sort();
    assert_eq!(uni, vec![(s("a"), 2), (s("b"), 3)]);
    let mut bi = counts.bigram_rows();
    bi.sort();
    assert_eq!(bi, vec![(s("a"), s("b"), 2), (s("b"), s("a"), 1)]);
}

#[test]
fn word_lists_of_the_messages_that_contribute() {
    let msgs = vec![
        msg("message", Some("u1"), MessageText::Plain(s("Hi there x"))),
        msg("message", Some("u2"), MessageText::Plain(s("good day"))),
        msg("message", Some("u1"), MessageText::Plain(s("a"))),
        msg("service", Some("u1"), MessageText::Plain(s("joined group"))),
    ];
    assert_eq!(
        message_word_lists(&msgs, None),
        vec![vec![s("hi"), s("there")], vec![s("good"), s("day")]]
    );
    assert_eq!(message_word_lists(&msgs, Some("u1")), vec![vec![s("hi"), s("there")]]);
}

#[test]
fn backspace_takes_back_a_typed_character() {
    let mut st = AppState::default();
    st.typed_buffer = s("до");
    assert!(type_char(&mut st, Some('м')));
    assert_eq!(st.typed_buffer, "дом");
    assert!(matches!(handle_key(&mut st, &key(0x08), "Tab", no_mods()), KeyStep::Edited));
    assert_eq!(st.typed_buffer, "до");
    let mut empty = AppState::default();
    assert!(matches!(handle_key(&mut empty, &key(0x08), "Tab", no_mods()), KeyStep::Edited));
    assert_eq!(empty.typed_buffer, "");
}

#[test]
fn each_counted_ngram_is_handed_over_once() {
    let msgs = vec![
        msg("message", None, MessageText::Plain(s("a bb bb cc"))),
        msg("service", None, MessageText::Plain(s("dd ee"))),
        msg("message", None, MessageText::Plain(s("?!"))),
        msg(
            "message",
            None,
            MessageText::Parts(vec![TextPart::Text(s("bb ")), TextPart::Text(s("cc"))]),
        ),
    ];
    let (counts, stats) = count_ngrams(&msgs, None);
    assert_eq!((stats.messages, stats.unigrams, stats.bigrams, stats.trigrams), (2, 2, 2, 1));
    let mut uni = counts.unigram_rows();
    uni.sort();
    assert_eq!(uni, vec![(s("bb"), 3), (s("cc"), 2)]);
    let mut bi = counts.bigram_rows();
    bi.sort();
    assert_eq!(bi, vec![(s("bb"), s("bb"), 1), (s("bb"), s("cc"), 2)]);
    assert_eq!(counts.trigram_rows(), vec![(s("bb"), s("bb"), s("cc"), 1)]);
}

#[test]
fn a_sender_filter_counts_only_that_senders_messages() {
    let msgs = vec![
        msg("message", Some("u1"), MessageText::Plain(s("hi there"))),
        msg("message", Some("u2"), MessageText::Plain(s("hi you"))),
        msg("message", None, MessageText::Plain(s("hi all"))),
        msg("message", Some("u1"), MessageText::Plain(s("hi there again"))),
    ];
    let only = vec![
        msg("message", Some("u1"), MessageText::Plain(s("hi there"))),
        msg("message", Some("u1"), MessageText::Plain(s("hi there again"))),
    ];
    let (a, sa) = count_ngrams(&msgs, Some("u1"));
    let (b, sb) = count_ngrams(&only, None);
    assert_eq!((sa.messages, sa.unigrams, sa.bigrams, sa.trigrams), (sb.messages, sb.unigrams, sb.bigrams, sb.trigrams));
    assert_eq!(a.unigram_rows(), b.unigram_rows());
    assert_eq!(a.bigram_rows(), b.bigram_rows());
    assert_eq!(a.trigram_rows(), b.trigram_rows());
}

#[test]
fn equal_frequencies_keep_row_order_and_refresh_matches_load() {
    let t = NgramTables {
        unigrams: vec![(s("abc"), 2), (s("abd"), 2), (s("abe"), 1)],
        bigrams: vec![(s("x"), s("p"), 3), (s("x"), s("q"), 3)],
        trigrams: vec![(s("x"), s("y"), s("r"), 1), (s("x"), s("y"), s("s"), 1)],
    };
    let fresh = NgramCache::load_from_db(&t);
    let mut old = NgramCache::load_from_db(&tables());
    old.refresh(&t);
    for c in [&fresh, &old] {
        assert_eq!(c.unigram_predict("ab"), Some(s("abc")));
        assert_eq!(c.bigram_predict("x", ""), Some(s("p")));
        assert_eq!(c.trigram_predict("x", "y", ""), Some(s("r")));
        assert_eq!(c.unigram_predict("he"), None);
    }
}

#[test]
fn key_presses_are_routed() {
    let apps = vec![s("chrome")];
    let mut rebind = true;
    assert!(matches!(
        route_key(&mut rebind, true, 0x10, no_mods(), None, &apps),
        KeyRoute::Skip
    ));
    assert!(rebind);
    let ctrl = Modifiers { ctrl: true, shift: false, alt: false };
    assert!(matches!(
        route_key(&mut rebind, true, 0x20, ctrl, None, &apps),
        KeyRoute::Rebound(ref k) if k == "Ctrl+Space"
    ));
    assert!(!rebind);
    assert!(matches!(route_key(&mut rebind, false, 0x41, no_mods(), None, &apps), KeyRoute::Skip));
    assert!(matches!(
        route_key(&mut rebind, true, 0x41, no_mods(), Some("Chrome.exe"), &apps),
        KeyRoute::Skip
    ));
    assert!(matches!(
        route_key(&mut rebind, true, 0x41, no_mods(), Some("notepad.exe"), &apps),
        KeyRoute::Handle
    ));
    assert!(matches!(route_key(&mut rebind, true, 0x41, no_mods(), None, &apps), KeyRoute::Handle));
}

#[test]
fn refresh_waits_for_the_debounce() {
    assert!(!debounce_elapsed(29_999_999, 30));
    assert!(debounce_elapsed(30_000_000, 30));
    assert!(debounce_elapsed(0, 0));
    assert!(debounce_elapsed(u128::MAX, u64::MAX));
}

#[test]
fn overlay_placement_cascade() {
    assert!(matches!(caret_step(100, 200, true), CaretStep::Place(100, 200)));
    assert!(matches!(caret_step(100, -5, true), CaretStep::TryBelow));
    assert!(matches!(caret_step(100, -5, false), CaretStep::GiveUp));
    assert!(matches!(caret_step(6000, 200, true), CaretStep::GiveUp));
    // cursor first, popup 40x20 above it
    assert_eq!(fallback_position(false, Some((500, 300)), Some((0, 1000, 800)), 40, 20, true), Some((480, 256)));
    // too near the top: below the cursor instead; never left of x = 4
    assert_eq!(fallback_position(false, Some((10, 30)), None, 40, 20, true), Some((4, 50)));
    // fixed mode ignores the cursor and centres on the window
    assert_eq!(fallback_position(true, Some((500, 300)), Some((0, 1000, 800)), 40, 20, true), Some((480, 720)));
    assert_eq!(fallback_position(true, None, None, 40, 20, true), None);
}
