use fsearch::display::{align_right, human_age, human_size};
use fsearch::engine::{EngineStatus, Mode};
use fsearch::fusion::ResultRow;
use fsearch::keymap::{Key, KeyCode, KeyModifiers, Keymap};
use fsearch::pathmap::PathMap;
use fsearch::rows::{
    badge_for, display_items, match_pieces, right_pad, row_age, row_lines, spans_with_styles,
    Density, Item, Piece, Role, RowContext,
};
use fsearch::theme::Color;
use fsearch::tui::{
    image_support, menu, menu_area, mode_label, status_line, App, FileAction, ImageSupport,
    PreviewAsk, PreviewLayout, Step, UiMode, HINTS, MENU_LEN,
};
use fsearch::walker::FileMeta;

fn test_app() -> App {
    App::new(UiMode::Open, Vec::new())
}

fn key(code: KeyCode) -> Key {
    (code, KeyModifiers { control: false, alt: false, shift: false })
}

fn ctrl(c: char) -> Key {
    (KeyCode::Char(c), KeyModifiers { control: true, alt: false, shift: false })
}

/// Hands the app a key while there are no results.
fn press(app: &mut App, key: Key) -> bool {
    step(app, key, &[]).go_on
}

/// Hands the app a key, with the default bindings.
fn step(app: &mut App, key: Key, rows: &[ResultRow]) -> Step {
    app.handle_key(key, &Keymap::default(), Mode::Fuzzy, rows)
}

fn row(path: &str) -> ResultRow {
    ResultRow {
        path: path.to_string(),
        line_number: None,
        line: None,
        recent_open: false,
        meta: None,
        score: None,
    }
}

fn context(density: Density) -> RowContext {
    RowContext { home: None, density, inner_width: 78, now: 1_000 }
}

fn text_of(lines: &[Vec<Piece>]) -> String {
    let lines: Vec<String> =
        lines.iter().map(|l| l.iter().map(|p| p.text.as_str()).collect()).collect();
    lines.join("\n")
}

fn status() -> EngineStatus {
    EngineStatus { indexed: 12, indexing: false, matches: 3, error: None, walk: None }
}

#[test]
fn renders_input_and_status() {
    let mut app = test_app();
    app.set_input("notes");
    assert_eq!(app.input(), "notes");
    assert_eq!(mode_label(Mode::Fuzzy, false), "fuzzy");
    assert_eq!(mode_label(Mode::Fuzzy, true), "regex");
    let mut s = status();
    assert_eq!(status_line(&s, None, None), "12 indexed · 3 matches");
    s.indexing = true;
    s.error = Some("bad".to_string());
    assert_eq!(
        status_line(&s, Some((true, 2048, Some(300))), Some("copied")),
        "12 indexed · 3 matches · 2.0 KB · 5m ago · indexing… · bad · copied"
    );
}

#[test]
fn hints_show_only_while_input_is_empty() {
    assert!(HINTS.contains("grep in files"));
    let mut app = test_app();
    assert!(app.input().is_empty());
    app.set_input("x");
    assert!(!app.input().is_empty());
}

#[test]
fn typing_updates_input_and_esc_quits() {
    let mut app = test_app();
    assert!(press(&mut app, key(KeyCode::Char('a'))));
    assert_eq!(app.input(), "a");
    assert!(press(&mut app, key(KeyCode::Backspace)));
    assert_eq!(app.input(), "");
    assert!(!press(&mut app, key(KeyCode::Esc)));
}

#[test]
fn sizes_and_ages_humanize() {
    assert_eq!(human_size(412), "412 B");
    assert_eq!(human_size(1300), "1.3 KB");
    assert_eq!(human_size(2_000_000), "2.0 MB");
    assert_eq!(human_size(1_100_000_000), "1.1 GB");
    assert_eq!(human_age(0), "just now");
    assert_eq!(human_age(300), "5m ago");
    assert_eq!(human_age(7200), "2h ago");
    assert_eq!(human_age(3 * 24 * 3600), "3d ago");
}

#[test]
fn sizes_round_to_tenths() {
    assert_eq!(human_size(0), "0 B");
    assert_eq!(human_size(999), "999 B");
    assert_eq!(human_size(1000), "1.0 KB");
    assert_eq!(human_size(1049), "1.0 KB");
    assert_eq!(human_size(1051), "1.1 KB");
    assert_eq!(human_size(999_949), "999.9 KB");
    assert_eq!(human_size(999_999), "1000.0 KB");
    assert_eq!(human_size(1_260_000), "1.3 MB");
    assert_eq!(human_size(3_000_000_000_000), "3.0 TB");
    assert_eq!(human_age(59), "just now");
    assert_eq!(human_age(60), "1m ago");
    assert_eq!(human_age(3600), "1h ago");
    assert_eq!(align_right("7", 3), "  7");
    assert_eq!(align_right("12345", 3), "12345");
}

#[test]
fn spans_split_on_highlight_boundaries() {
    let text: Vec<char> = "abcd".chars().collect();
    let spans = spans_with_styles(&text, &vec![1, 2], Role::Raw, Role::Match);
    let texts: Vec<&str> = spans.iter().map(|s| s.text.as_str()).collect();
    assert_eq!(texts, vec!["a", "bc", "d"]);
    assert_eq!(spans[1].role, Role::Match);
    assert_eq!(spans[0].role, Role::Raw);
    // no positions → single plain span
    assert_eq!(
        spans_with_styles(&text, &vec![], Role::Raw, Role::Match).len(),
        1
    );
}

#[test]
fn tab_cycles_preview_layouts() {
    let mut app = test_app();
    assert_eq!(app.preview_layout(), PreviewLayout::Side);
    press(&mut app, key(KeyCode::Tab));
    assert_eq!(app.preview_layout(), PreviewLayout::Full);
    press(&mut app, key(KeyCode::Tab));
    assert_eq!(app.preview_layout(), PreviewLayout::Hidden);
    press(&mut app, key(KeyCode::Tab));
    assert_eq!(app.preview_layout(), PreviewLayout::Side);
    assert_eq!(PreviewLayout::default(), PreviewLayout::Side);
}

#[test]
fn sections_render_on_empty_query_with_recent_opens() {
    let mut opened = row("/a/opened.txt");
    opened.recent_open = true;
    let rows = vec![opened, row("/a/fresh.txt")];
    let (items, at) = display_items(&rows, true, Mode::Fuzzy, 1);
    assert_eq!(
        items,
        vec![Item::RecentOpens, Item::Row(0), Item::RecentlyModified, Item::Row(1)]
    );
    assert_eq!(at, 3);
    assert!(items[0].header().unwrap().contains("RECENT OPENS"));
    assert!(items[2].header().unwrap().contains("RECENTLY MODIFIED"));
    assert_eq!(items[1].header(), None);
    // typing hides the sections
    let (items, at) = display_items(&rows, false, Mode::Fuzzy, 1);
    assert_eq!(items, vec![Item::Row(0), Item::Row(1)]);
    assert_eq!(at, 1);
}

#[test]
fn history_cycles_with_ctrl_p_and_n() {
    let mut app = App::new(UiMode::Open, vec!["alpha".to_string(), "beta".to_string()]);
    press(&mut app, ctrl('p'));
    assert_eq!(app.input(), "beta");
    press(&mut app, ctrl('p'));
    assert_eq!(app.input(), "alpha");
    press(&mut app, ctrl('n'));
    assert_eq!(app.input(), "beta");
    // stepping past the newest clears back to a blank query
    press(&mut app, ctrl('n'));
    assert_eq!(app.input(), "");
    // typing resets the cursor position in history
    press(&mut app, key(KeyCode::Char('x')));
    press(&mut app, ctrl('p'));
    assert_eq!(app.input(), "beta");
}

#[test]
fn menu_opens_only_with_results_and_esc_closes_it() {
    let mut app = test_app();
    // no results: Right is a no-op
    press(&mut app, key(KeyCode::Right));
    assert_eq!(app.menu_entry(), None);
    // with results it opens: Esc closes the menu without quitting the app
    let rows = vec![row("/a")];
    step(&mut app, key(KeyCode::Right), &rows);
    assert_eq!(app.menu_entry(), Some(0));
    assert!(step(&mut app, key(KeyCode::Esc), &rows).go_on);
    assert_eq!(app.menu_entry(), None);
    // and a second Esc quits
    assert!(!step(&mut app, key(KeyCode::Esc), &rows).go_on);
}

#[test]
fn menu_renders_actions() {
    let text = menu().join("\n");
    assert!(text.contains("move to trash"));
    assert!(text.contains("quick look"));
    assert_eq!(menu().len(), MENU_LEN);
    assert_eq!(menu_area((0, 0, 80, 24)), (28, 8, 24, 7));
    assert_eq!(menu_area((2, 3, 10, 4)), (2, 3, 10, 4));
}

#[test]
fn menu_runs_the_chosen_action() {
    let rows = vec![row("/a"), row("/b")];
    let expected = [
        FileAction::Open,
        FileAction::Reveal,
        FileAction::Copy,
        FileAction::QuickLook,
        FileAction::Trash,
    ];
    for (steps, action) in expected.into_iter().enumerate() {
        let mut app = test_app();
        step(&mut app, key(KeyCode::Down), &rows);
        step(&mut app, key(KeyCode::Right), &rows);
        for _ in 0..steps {
            step(&mut app, key(KeyCode::Down), &rows);
        }
        let asked = step(&mut app, key(KeyCode::Enter), &rows);
        assert!(asked.go_on);
        assert_eq!(asked.action, Some((action, vec!["/b".to_string()])));
        assert_eq!(app.menu_entry(), None);
    }
    let mut app = test_app();
    app.settle(FileAction::Trash, "/b", None);
    assert_eq!(app.message(), Some("trashed: /b"));
    app.settle(FileAction::Open, "/b", Some("no such file".to_string()));
    assert_eq!(app.message(), Some("error: no such file"));
}

#[test]
fn pick_mode_enter_returns_selection_and_quits() {
    let mut app = App::new(UiMode::Pick, Vec::new());
    // no results yet: Enter does nothing
    assert!(press(&mut app, key(KeyCode::Enter)));
    assert!(app.picked().is_none());
    let asked = step(&mut app, key(KeyCode::Enter), &vec![row("/a")]);
    assert!(!asked.go_on);
    assert_eq!(app.picked(), Some("/a"));
}

#[test]
fn ctrl_t_toggles_row_density() {
    let mut app = test_app();
    assert_eq!(app.density(), Density::Comfy);
    press(&mut app, ctrl('t'));
    assert_eq!(app.density(), Density::Compact);
    press(&mut app, ctrl('t'));
    assert_eq!(app.density(), Density::Comfy);
}

#[test]
fn comfy_rows_render_name_badge_size_and_parent() {
    let mut r = row("/a/b/notes.md");
    r.meta = Some(FileMeta { mtime: 1_000, size: 2048 });
    let lines = row_lines(&r, &context(Density::Comfy), &vec![], None);
    assert_eq!(lines.len(), 2);
    let text = text_of(&lines);
    assert!(text.contains("notes.md"), "name missing");
    assert!(text.contains("MD"), "badge missing");
    assert!(text.contains("2.0 KB"), "size missing");
    assert!(text.contains("/a/b"), "parent missing");
}

#[test]
fn compact_rows_keep_name_and_parent_on_one_line() {
    let mut r = row("/a/b/notes.md");
    r.meta = Some(FileMeta { mtime: 1_000, size: 2048 });
    let lines = row_lines(&r, &context(Density::Compact), &vec![], None);
    assert_eq!(lines.len(), 1);
    let text = text_of(&lines);
    assert!(text.contains("notes.md"), "name missing");
    assert!(text.contains("/a/b"), "parent missing");
}

#[test]
fn badges_map_extensions_and_kinds() {
    assert_eq!(badge_for("/x/a.pdf"), ("PDF".to_string(), Color::Yellow));
    assert_eq!(
        badge_for("/x/photo.jpeg"),
        ("JPEG".to_string(), Color::Cyan)
    );
    assert_eq!(badge_for("/x/dir/"), ("DIR".to_string(), Color::Blue));
    assert_eq!(badge_for("/x/noext"), ("FILE".to_string(), Color::DarkGray));
    assert_eq!(badge_for("/x/a.tar.gz"), ("GZ".to_string(), Color::Red));
}

#[test]
fn content_rows_render_line_number_and_text() {
    let mut r = row("/a/b/notes.rs");
    r.line_number = Some(3);
    r.line = Some("let needle = 1;".to_string());
    let lines = row_lines(&r, &context(Density::Comfy), &vec![], Some((4, 10)));
    let text = text_of(&lines);
    assert!(text.contains("needle"), "matched line missing");
    assert!(text.contains(":3"), "line number missing");
    assert!(lines.iter().flatten().any(|p| p.text == "needle" && p.role == Role::Match));
    assert_eq!(match_pieces("abc", Some((1, 2)))[1].text, "b");
}

#[test]
fn rows_shorten_the_home_directory() {
    let mut ctx = context(Density::Comfy);
    ctx.home = Some("/home/me".to_string());
    let lines = row_lines(&row("/home/me/docs/a.txt"), &ctx, &vec![], None);
    let text = text_of(&lines);
    assert!(text.contains("~/docs"));
    assert!(!text.contains("/home/me"));
    assert_eq!(right_pad(10, 5, 20), Some(5));
    assert_eq!(right_pad(10, 5, 15), None);
    assert_eq!(row_age(None, 0), None);
    let meta = FileMeta { mtime: 400, size: 0 };
    assert_eq!(row_age(Some(meta), 1_000).as_deref(), Some("10m ago"));
}

#[test]
fn ctrl_r_toggles_regex_mode() {
    let mut app = test_app();
    assert!(!app.regex_mode());
    press(&mut app, ctrl('r'));
    assert!(app.regex_mode());
}

#[test]
fn insert_at_cursor_keeps_cursor_after_typed_char() {
    let mut app = test_app();
    app.set_input("ab");
    app.cursor_left();
    assert_eq!(app.input_cursor(), 1);
    app.insert_char('X');
    assert_eq!(app.input(), "aXb");
    assert_eq!(app.input_cursor(), 2);
}

#[test]
fn cursor_arrows_move_across_multibyte_chars() {
    let mut app = test_app();
    app.set_input("héllo"); // 'é' is two bytes
    assert_eq!(app.input_cursor(), app.input().len());
    // stepping left crosses the two-byte 'é' exactly once
    for expected in [5usize, 4, 3, 1, 0] {
        app.cursor_left();
        assert_eq!(app.input_cursor(), expected, "left step");
    }
    // stepping right from 0 crosses 'é' in one char-width jump
    for expected in [1usize, 3, 4, 5, 6] {
        app.cursor_right();
        assert_eq!(app.input_cursor(), expected, "right step");
    }
    assert_eq!(app.cursor_column(), 5);
    // moving left at the start / right at the end is a no-op
    app.cursor_start();
    app.cursor_left();
    assert_eq!(app.input_cursor(), 0);
    app.cursor_end();
    app.cursor_right();
    assert_eq!(app.input_cursor(), app.input().len());
}

#[test]
fn ctrl_w_deletes_previous_word() {
    let mut app = test_app();
    app.set_input("needle   haystack");
    press(&mut app, ctrl('w'));
    assert_eq!(app.input(), "needle   ");
    assert_eq!(app.input_cursor(), "needle   ".len());
    // readline ctrl-w also eats the trailing whitespace
    app.delete_word_backward();
    assert_eq!(app.input(), "");
    assert_eq!(app.input_cursor(), 0);
}

#[test]
fn ctrl_d_deletes_char_under_cursor() {
    let mut app = test_app();
    app.set_input("abcd");
    app.cursor_start();
    app.cursor_right();
    press(&mut app, ctrl('d'));
    assert_eq!(app.input(), "acd");
    assert_eq!(app.input_cursor(), 1);
}

#[test]
fn ctrl_a_e_jump_to_ends() {
    let mut app = test_app();
    app.set_input("fsearch");
    app.cursor_left();
    press(&mut app, ctrl('a'));
    assert_eq!(app.input_cursor(), 0);
    press(&mut app, ctrl('e'));
    assert_eq!(app.input_cursor(), app.input().len());
}

#[test]
fn page_keys_scroll_preview_text_clamped() {
    let mut app = test_app();
    press(&mut app, key(KeyCode::PageDown));
    app.clamp_scroll(6);
    assert_eq!(app.preview_scroll(), 5);
    press(&mut app, key(KeyCode::PageDown));
    assert_eq!(app.preview_scroll(), 25);
    press(&mut app, key(KeyCode::PageUp));
    assert_eq!(app.preview_scroll(), 5);
    press(&mut app, key(KeyCode::PageUp));
    assert_eq!(app.preview_scroll(), 0); // saturates at zero
    press(&mut app, key(KeyCode::PageUp));
    assert_eq!(app.preview_scroll(), 0);
}

#[test]
fn queries_are_remembered_when_files_are_opened() {
    let mut app = test_app();
    app.set_input(" notes ");
    let rows = vec![row("/a")];
    let asked = step(&mut app, key(KeyCode::Enter), &rows);
    assert_eq!(asked.recorded.as_deref(), Some("notes"));
    assert_eq!(asked.action, Some((FileAction::Open, vec!["/a".to_string()])));
    // every use of a query is recorded
    let asked = step(&mut app, key(KeyCode::Enter), &rows);
    assert_eq!(asked.recorded.as_deref(), Some("notes"));
    app.set_input("");
    assert_eq!(app.push_history(), None);
    assert!(app.history_step(true));
    assert_eq!(app.input(), "notes");
}

#[test]
fn previews_are_asked_for_once() {
    let mut app = test_app();
    assert_eq!(app.ask_preview(&Vec::new()), PreviewAsk::NoSelection);
    let rows = vec![row("/a.txt"), row("/d/")];
    let first = app.ask_preview(&rows);
    let PreviewAsk::Load { generation, path, line_number } = first else {
        panic!("the first ask loads");
    };
    assert_eq!(path, "/a.txt");
    assert!(app.wants_preview(generation, "/a.txt", line_number));
    assert_eq!(app.ask_preview(&rows), PreviewAsk::Kept);
    step(&mut app, key(KeyCode::Down), &rows);
    assert_eq!(app.selected(), 1);
    assert_eq!(app.ask_preview(&rows), PreviewAsk::List("/d/".to_string()));
    assert!(!app.wants_preview(generation, "/a.txt", None));
    app.clamp_selection(1);
    assert_eq!(app.selected(), 0);
}

#[test]
fn image_support_prefers_the_user_override() {
    assert_eq!(image_support(false, Some("kitty"), true), ImageSupport::Halfblocks);
    assert_eq!(image_support(true, Some("off"), true), ImageSupport::Off);
    assert_eq!(image_support(true, Some("iterm2"), false), ImageSupport::Iterm2);
    assert_eq!(image_support(true, None, true), ImageSupport::Query);
    assert_eq!(image_support(true, None, false), ImageSupport::Halfblocks);
}

#[test]
fn a_stale_selection_is_drawn_without_rows() {
    let (items, at) = display_items(&Vec::new(), true, Mode::Fuzzy, 7);
    assert!(items.is_empty());
    assert_eq!(at, 7);
}

#[test]
fn a_stale_place_in_the_history_leads_back_to_a_blank_query() {
    let past = vec!["a".to_string(), "a".to_string()];
    let mut app = App::new(UiMode::Open, past);
    press(&mut app, ctrl('p'));
    assert_eq!(app.input(), "a");
    // both entries become one
    assert_eq!(app.push_history().as_deref(), Some("a"));
    assert!(app.history_step(false));
    assert_eq!(app.input(), "");
    assert!(!app.history_step(false));
    assert!(app.history_step(true));
    assert_eq!(app.input(), "a");
    // a step back from such a place comes to the newest entry
    let past = vec!["b".to_string(), "a".to_string(), "a".to_string(), "a".to_string()];
    let mut app = App::new(UiMode::Open, past);
    app.history_step(true);
    app.push_history();
    assert!(app.history_step(true));
    assert_eq!(app.input(), "a");
    assert!(app.history_step(true));
    assert_eq!(app.input(), "b");
}

#[test]
fn configured_keys_take_the_place_of_the_defaults() {
    let mut keys: PathMap<Vec<String>> = PathMap::new();
    keys.insert("quit".to_string(), vec!["ctrl-q".to_string()]);
    keys.insert("menu".to_string(), vec!["alt-m".to_string()]);
    keys.insert("clear_query".to_string(), vec!["a".to_string(), "f5".to_string()]);
    let keymap = Keymap::from_config(&keys);
    let rows = vec![row("/a")];
    let mut app = test_app();
    let hit = |app: &mut App, key: Key| app.handle_key(key, &keymap, Mode::Fuzzy, &rows);
    assert!(hit(&mut app, key(KeyCode::Esc)).go_on);
    assert!(hit(&mut app, ctrl('c')).go_on);
    assert!(!hit(&mut app, ctrl('q')).go_on);
    // typing is fixed, and keys that nothing is bound to do nothing
    assert!(hit(&mut app, key(KeyCode::Char('a'))).search);
    assert_eq!(app.input(), "a");
    hit(&mut app, key(KeyCode::Right));
    assert_eq!(app.menu_entry(), None);
    let alt = |c: char| (KeyCode::Char(c), KeyModifiers::alt());
    assert!(!hit(&mut app, alt('m')).search);
    assert_eq!(app.menu_entry(), Some(0));
    hit(&mut app, key(KeyCode::Esc));
    // a character with alt that nothing is bound to is typed
    assert!(hit(&mut app, alt('x')).search);
    assert_eq!(app.input(), "ax");
    assert!(hit(&mut app, key(KeyCode::F(5))).search);
    assert_eq!(app.input(), "");
    // modifiers that no binding names do not matter
    let shift = KeyModifiers { control: false, alt: false, shift: true };
    hit(&mut app, (KeyCode::Tab, shift));
    assert_eq!(app.preview_layout(), PreviewLayout::Full);
}

#[test]
fn ctrl_g_asks_for_the_next_theme() {
    let mut app = test_app();
    let asked = step(&mut app, ctrl('g'), &[]);
    assert!(asked.cycle_theme && asked.go_on && !asked.search);
    assert!(!step(&mut app, ctrl('t'), &[]).cycle_theme);
}

#[test]
fn f1_and_ctrl_o_open_the_help_and_any_key_closes_it() {
    let mut app = test_app();
    for opener in [key(KeyCode::F(1)), ctrl('o')] {
        assert!(!app.shows_help());
        press(&mut app, opener);
        assert!(app.shows_help());
        // the key that closes the help does nothing else
        assert!(press(&mut app, key(KeyCode::Esc)));
    }
    assert!(!app.shows_help());
    assert!(!press(&mut app, key(KeyCode::Esc)));
}

#[test]
fn ctrl_x_lifts_the_fold() {
    let mut app = test_app();
    assert_eq!(app.shown_rows(5, 2), 2);
    assert_eq!(app.shown_rows(5, 0), 5);
    assert_eq!(app.shown_rows(5, 9), 5);
    press(&mut app, ctrl('x'));
    assert_eq!(app.shown_rows(5, 2), 5);
    press(&mut app, ctrl('x'));
    assert_eq!(app.shown_rows(5, 2), 2);
}

#[test]
fn the_menu_runs_over_the_marked_rows_that_are_shown() {
    let rows = vec![row("/a"), row("/b"), row("/c")];
    let paths = |all: &[&str]| all.iter().map(|p| p.to_string()).collect::<Vec<String>>();
    let mut app = test_app();
    // marking goes on to the next row
    step(&mut app, ctrl('b'), &rows);
    assert_eq!(app.selected(), 1);
    step(&mut app, key(KeyCode::Down), &rows);
    step(&mut app, ctrl('b'), &rows);
    assert_eq!(app.selected(), 2);
    assert!(app.is_marked("/a") && !app.is_marked("/b") && app.is_marked("/c"));
    let run = |app: &mut App, entry: usize, rows: &[ResultRow]| {
        step(app, key(KeyCode::Right), rows);
        for _ in 0..entry {
            step(app, key(KeyCode::Down), rows);
        }
        step(app, key(KeyCode::Enter), rows).action
    };
    assert_eq!(run(&mut app, 0, &rows), Some((FileAction::Open, paths(&["/a", "/c"]))));
    assert_eq!(run(&mut app, 2, &rows), Some((FileAction::Copy, paths(&["/a", "/c"]))));
    assert_eq!(run(&mut app, 4, &rows[..1]), Some((FileAction::Trash, paths(&["/a"]))));
    // one file at a time can be revealed
    assert_eq!(run(&mut app, 1, &rows), Some((FileAction::Reveal, paths(&["/c"]))));
    // keys act on the selected row
    let asked = step(&mut app, ctrl('y'), &rows);
    assert_eq!(asked.action, Some((FileAction::Copy, paths(&["/c"]))));
    step(&mut app, ctrl('b'), &rows);
    assert!(!app.is_marked("/c") && app.is_marked("/a"));
    step(&mut app, (KeyCode::Char('b'), KeyModifiers::alt()), &rows);
    assert!(!app.is_marked("/a"));
    assert_eq!(run(&mut app, 0, &rows), Some((FileAction::Open, paths(&["/c"]))));
    // nothing is marked where a row is to be picked
    let mut app = App::new(UiMode::Pick, Vec::new());
    step(&mut app, ctrl('b'), &rows);
    assert!(!app.is_marked("/a"));
    assert_eq!(app.selected(), 0);
}

#[test]
fn enter_copies_the_result_of_a_calculation() {
    let mut app = test_app();
    app.set_input("= 2*7");
    let rows = vec![row("14")];
    let asked = app.handle_key(key(KeyCode::Enter), &Keymap::default(), Mode::Calc, &rows);
    assert_eq!(asked.action, Some((FileAction::Copy, vec!["14".to_string()])));
    assert_eq!(asked.recorded.as_deref(), Some("= 2*7"));
}

#[test]
fn an_earlier_layout_is_taken_up() {
    let mut app = test_app();
    app.restore(PreviewLayout::Hidden, Density::Compact);
    assert_eq!(app.preview_layout(), PreviewLayout::Hidden);
    assert_eq!(app.density(), Density::Compact);
}
