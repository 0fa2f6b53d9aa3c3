//! Paths, configuration, the watcher, the model client, the tray and the explorer.

use lore::client::{
    api_error, choose_backend, claude_binary, cli_args, cli_error, reply_text, Backend,
    ContentBlock,
};
use lore::config::{Config, ConsolidationConfig};
use lore::edge::EdgeKind;
use lore::explorer::{
    children_label, depth_label, display_text, level_label, run_search, ExplorerState,
    ResultEntry, SearchRequest,
};
use lore::fragment::{timestamp, Fragment, FragmentId};
use lore::icon::{compute_pixel, generate, IconColor, Pixel, ICON_SIZE};
use lore::paths::{
    expand_home, file_stem, has_component, has_extension, join_path, lies_within, lore_home,
};
use lore::query::LoreDb;
use lore::status::{log_file, pid_file, status_file, status_line, tail_args, DaemonState};
use lore::storage::Storage;
use lore::text::{
    count_bytes, decimal_text, find, join, parse_usize, same, split_at_each, split_into,
    starts_with, take_chars, to_chars, to_lines, to_words, trim, truncate,
};
use lore::tray::{
    daemon_binary, header_text, interval_ms, log_command, menu_items, next_terminal, on_click,
    pid_to_check, state_of, tooltip, Action, Click, DaemonCommand, Terminal, Tray, TrayState,
};
use lore::watcher::{EntryKind, FileEntry, FileWatcher, IngestError, NotText};

fn strings(list: &[&str]) -> Vec<String> {
    list.iter().map(|s| s.to_string()).collect()
}

fn texts(list: Vec<Vec<char>>) -> Vec<String> {
    list.into_iter().map(|c| c.into_iter().collect()).collect()
}

// ---- texts ----

#[test]
fn texts_are_taken_apart_as_usual() {
    for s in ["", "a", " a b ", "a--b--", "--", "x\n---\ny", "äöü ß\u{2003}z\n"] {
        let c = to_chars(s);
        for sep in ["--", " ", "\n---\n"] {
            let expected: Vec<String> = s.split(sep).map(|p| p.to_string()).collect();
            assert_eq!(texts(split_at_each(&c, &to_chars(sep))), expected, "{:?}", s);
            let expected: Vec<String> = s.splitn(2, sep).map(|p| p.to_string()).collect();
            assert_eq!(texts(split_into(&c, &to_chars(sep), 2)), expected, "{:?}", s);
        }
        let expected: Vec<String> = s.split_whitespace().map(|p| p.to_string()).collect();
        assert_eq!(texts(to_words(&c)), expected);
        let expected: Vec<String> = s.lines().map(|p| p.to_string()).collect();
        assert_eq!(texts(to_lines(&c)), expected);
        assert_eq!(trim(s), s.trim());
        assert_eq!(count_bytes(&c), s.len() as u128);
        assert_eq!(take_chars(s, 2), s.chars().take(2).collect::<String>());
    }
    assert_eq!(texts(to_lines(&to_chars("a\r\nb\n\nc"))), vec!["a", "b", "", "c"]);
}

#[test]
fn texts_are_cut_at_characters() {
    assert_eq!(truncate("äöü", 3), "ä");
    assert_eq!(truncate("äöü", 6), "äöü");
    assert_eq!(truncate("abc", 2), "ab");
    assert_eq!(truncate("ä", 1), "");
}

#[test]
fn numbers_are_read_and_written() {
    for s in ["0", "7", "+12", "007", "18446744073709551615"] {
        assert_eq!(parse_usize(&to_chars(s)), s.parse::<usize>().ok(), "{}", s);
    }
    for s in ["", "+", "-1", " 1", "1x", "18446744073709551616"] {
        assert_eq!(parse_usize(&to_chars(s)), s.parse::<usize>().ok(), "{}", s);
    }
    assert_eq!(decimal_text(0), "0");
    assert_eq!(decimal_text(u64::MAX), u64::MAX.to_string());
}

#[test]
fn texts_are_searched() {
    assert_eq!(find(&to_chars("abcabc"), &to_chars("ca")), Some(2));
    assert_eq!(find(&to_chars("abc"), &to_chars("")), Some(0));
    assert_eq!(find(&to_chars("abc"), &to_chars("x")), None);
    assert!(starts_with(&to_chars("yes!"), &to_chars("yes")));
    assert!(!starts_with(&to_chars("ye"), &to_chars("yes")));
    assert!(same("a", "a"));
    assert!(!same("a", "A"));
    assert_eq!(join(&strings(&["a", "b", "c"]), ", "), "a, b, c");
    assert_eq!(join(&vec![], ", "), "");
}

// ---- paths and configuration ----

#[test]
fn paths_have_stems_and_extensions() {
    for p in ["/a/b.jsonl", "b.tar.gz", ".hidden", "/a/.hidden.x", "/a/b/", "/", "", "..", "a/."] {
        let path = std::path::Path::new(p);
        let stem = path.file_stem().map(|s| s.to_string_lossy().to_string());
        assert_eq!(file_stem(p), stem, "{}", p);
        let is_jsonl = path.extension().map(|e| e == "jsonl").unwrap_or(false);
        assert_eq!(has_extension(p, "jsonl"), is_jsonl, "{}", p);
    }
    assert!(has_component("/a/subagents/x.jsonl", "subagents"));
    assert!(!has_component("/a/subagents2/x.jsonl", "subagents"));
    assert_eq!(join_path("/home/me", ".lore"), "/home/me/.lore");
    assert_eq!(join_path("/", ".lore"), "/.lore");
    assert_eq!(expand_home("~/x/~", "/home/me"), "/home/me/x//home/me");
    assert_eq!(lore_home(Some("/home/me")), "/home/me/.lore");
    assert_eq!(lore_home(None), "./.lore");
}

#[test]
fn configuration_has_defaults() {
    let c = Config::for_home(Some("/home/me"), "model-1".to_string());
    assert_eq!(c.ingestion.poll_interval_secs, 30);
    assert_eq!(c.ingestion.batch_size, 100);
    assert_eq!(c.ingestion.claude_model, "model-1");
    assert_eq!(c.claude.api_key_env, "ANTHROPIC_API_KEY");
    assert!(c.claude.extraction_model.is_none());
    assert!(c.claude.compression_model.is_none());
    assert_eq!(c.extraction_model(), "model-1");
    assert_eq!(c.compression_model(), "model-1");
    assert_eq!(c.database.path, "/home/me/.lore/memory.db");
    assert_eq!(c.db_path(Some("/home/me")), "/home/me/.lore/memory.db");
    let d = ConsolidationConfig::default();
    assert_eq!(d.interval_secs, 7200);
    assert_eq!(d.idle_threshold_secs, 300);
    assert_eq!(d.max_turns_per_extraction, 200);
    assert_eq!(d.similarity_threshold, 800_000_000);
    assert_eq!(d.merge_threshold, 850_000_000);
    assert_eq!(d.prune_age_days, 30);
    assert_eq!(d.min_relevance_prune, 20_000_000);
    let mut tilde = Config::for_home(None, "model-1".to_string());
    assert_eq!(tilde.database.path, "./.lore/memory.db");
    tilde.database.path = "~/m.db".to_string();
    assert_eq!(tilde.db_path(Some("/h")), "/h/m.db");
    assert_eq!(tilde.db_path(None), "/m.db");
}

#[test]
fn the_status_is_told() {
    assert_eq!(status_file(Some("/h")), "/h/.lore/daemon.status");
    assert_eq!(pid_file(Some("/h")), "/h/.lore/daemon.pid");
    assert_eq!(log_file(None), "./.lore/daemon.log");
    assert_eq!(DaemonState::Consolidating.as_str(), "consolidating");
    assert_eq!(status_line(None, false), "Daemon: not running");
    assert_eq!(status_line(Some("7"), true), "Daemon: running (PID: 7)");
    assert_eq!(status_line(Some("7"), false), "Daemon: stale PID file (PID: 7 not running)");
    assert_eq!(tail_args(50, false, "/log"), vec!["-n", "50", "/log"]);
    assert_eq!(tail_args(5, true, "/log"), vec!["-n", "5", "-f", "/log"]);
}

#[test]
fn a_clock_before_the_epoch_reads_zero() {
    assert_eq!(timestamp(None), 0);
    assert_eq!(timestamp(Some(5)), 5);
    assert_eq!(timestamp(Some(u64::MAX)), i64::MAX);
}

// ---- watcher ----

#[test]
fn conversation_logs_are_picked() {
    let w = FileWatcher::new(Some("/home/me"), "helper");
    assert_eq!(w.projects_dir, "/home/me/.helper/projects");
    let files = strings(&["/p/a.jsonl", "/p/a.txt", "/p/subagents/b.jsonl", "/p/c.jsonl"]);
    let entries: Vec<FileEntry> =
        files.into_iter().map(|path| FileEntry { path, kind: EntryKind::File }).collect();
    assert_eq!(w.find_conversation_files(&entries), vec!["/p/a.jsonl", "/p/c.jsonl"]);
}

#[test]
fn links_are_not_followed() {
    let w = FileWatcher::new(Some("/home/me"), "helper");
    let entries: Vec<FileEntry> = [
        ("/p/dir/below.jsonl", EntryKind::File),
        ("/p/dir", EntryKind::Link),
        ("/p/linked.jsonl", EntryKind::Link),
        ("/p/directory", EntryKind::Directory),
        ("/p/directory/a.jsonl", EntryKind::File),
        ("/p/folder.jsonl", EntryKind::Directory),
        ("/p/folder.jsonl/b.jsonl", EntryKind::File),
    ]
    .into_iter()
    .map(|(path, kind)| FileEntry { path: path.to_string(), kind })
    .collect();
    assert_eq!(
        w.find_conversation_files(&entries),
        vec!["/p/directory/a.jsonl", "/p/folder.jsonl/b.jsonl"]
    );
    assert!(lies_within("/p/dir", "/p/dir/"));
    assert!(lies_within("/p/dir/x", "/p/dir"));
    assert!(!lies_within("/p/directory/x", "/p/dir"));
    assert!(!lies_within("/p", "/p/dir"));
    assert!(!lies_within("p/dir", "/p/dir"));
}

#[test]
fn new_turns_are_read_behind_the_watermark() {
    let w = FileWatcher::new(None, "helper");
    let mut storage = Storage::open_memory().unwrap();
    let line = r#"{"message":{"role":"user","content":"Hi"}}"#;
    for end in ["\n", "\r\n"] {
        let path = format!("/a{}.jsonl", end.len());
        let mut file = format!("{}{}junk{}", line, end, end).into_bytes();
        let (turns, offset) = w.read_new_turns(&path, &storage, &file).unwrap();
        assert_eq!(turns.len(), 1);
        assert_eq!(turns[0].text, "Hi");
        assert_eq!(offset, file.len() as i64);
        storage.set_watermark(&path, offset);
        assert_eq!(w.resume_offset(&path, &storage), offset);
        let (turns, same) = w.read_new_turns(&path, &storage, &file).unwrap();
        assert!(turns.is_empty());
        assert_eq!(same, offset);
        file.extend_from_slice(line.as_bytes());
        let (turns, further) = w.read_new_turns(&path, &storage, &file).unwrap();
        assert_eq!(turns.len(), 1);
        assert_eq!(further, file.len() as i64);
    }
}

#[test]
fn files_that_are_no_text_are_refused() {
    let w = FileWatcher::new(None, "helper");
    let mut storage = Storage::open_memory().unwrap();
    assert_eq!(w.read_new_turns("/a", &storage, &vec![b'a', 0xff]).unwrap_err(), NotText);
    assert_eq!(w.ingest(&mut storage, "/a", &vec![0xc3]), Err(IngestError::NotText));
    assert_eq!(storage.get_watermark("/a"), None);
}

// ---- model client ----

#[test]
fn the_model_is_reached_with_a_key_or_with_the_program() {
    assert!(matches!(
        choose_backend(Some("key".to_string()), "m".to_string()),
        Backend::Api { .. }
    ));
    assert!(matches!(choose_backend(Some(String::new()), "m".to_string()), Backend::Cli { .. }));
    assert!(matches!(choose_backend(None, "m".to_string()), Backend::Cli { .. }));
    assert_eq!(cli_args("m")[..3], ["-p", "--model", "m"]);
    assert_eq!(claude_binary(None, "helper"), "helper");
    assert_eq!(claude_binary(Some("/x/helper".to_string()), "helper"), "/x/helper");
}

#[test]
fn text_blocks_make_the_reply() {
    let block = |kind: &str, text: Option<&str>| ContentBlock {
        block_type: kind.to_string(),
        text: text.map(|t| t.to_string()),
    };
    let blocks = vec![
        block("text", Some("a")),
        block("image", Some("x")),
        block("text", None),
        block("text", Some("b")),
    ];
    assert_eq!(reply_text(&blocks), "a\nb");
    assert_eq!(api_error("Model", "500", "oops"), "Model API error 500: oops");
    assert_eq!(
        cli_error("helper", "1", &"e".repeat(600)),
        format!("helper CLI exited with 1: {}", "e".repeat(500))
    );
}

// ---- tray ----

#[test]
fn the_state_comes_from_the_status_file() {
    assert_eq!(state_of(None, true), TrayState::Stopped);
    assert_eq!(state_of(Some(("idle", 7)), false), TrayState::Stopped);
    assert_eq!(state_of(Some(("idle", 0)), true), TrayState::Stopped);
    assert_eq!(state_of(Some(("idle", u32::MAX)), true), TrayState::Stopped);
    assert_eq!(state_of(Some(("ingesting", 7)), true), TrayState::Ingesting);
    assert_eq!(state_of(Some(("consolidating", 7)), true), TrayState::Consolidating);
    assert_eq!(state_of(Some(("unheard of", 7)), true), TrayState::Idle);
    assert_eq!(pid_to_check(7), Some(7));
    assert_eq!(pid_to_check(1 << 31), None);
}

#[test]
fn the_tray_pulses_while_the_daemon_works() {
    let mut t = Tray::new();
    assert!(t.observe(TrayState::Stopped).icon.is_none());
    let r = t.observe(TrayState::Ingesting);
    assert!(r.menu);
    assert_eq!(r.icon, Some((650_000_000, IconColor::Red)));
    let r = t.observe(TrayState::Ingesting);
    assert!(!r.menu);
    assert!(r.icon.unwrap().0 > 650_000_000);
    for _ in 0..14 {
        t.observe(TrayState::Ingesting);
    }
    assert_eq!(t.frame, 0);
    let r = t.observe(TrayState::Idle);
    assert_eq!(r.icon, Some((1_000_000_000, IconColor::Red)));
    assert_eq!(interval_ms(TrayState::Idle), 500);
    assert_eq!(interval_ms(TrayState::Consolidating), 100);
}

#[test]
fn the_menu_follows_the_state() {
    assert_eq!(header_text(TrayState::Ingesting), "Lore v0.1.0\t\tIngesting\u{2026}");
    assert_eq!(tooltip(TrayState::Idle), "Lore - Running");
    let m = menu_items(TrayState::Idle);
    assert!(!m.start && m.stop && m.ingest && m.consolidate);
    let m = menu_items(TrayState::Consolidating);
    assert!(!m.start && m.stop && !m.ingest && !m.consolidate);
    assert_eq!(
        on_click(Click::Start, TrayState::Stopped),
        Action::RunDaemon(DaemonCommand::Daemonize)
    );
    assert_eq!(
        on_click(Click::Quit, TrayState::Stopped),
        Action::Exit { stop_daemon: false }
    );
    assert_eq!(on_click(Click::Quit, TrayState::Idle), Action::Exit { stop_daemon: true });
    assert_eq!(DaemonCommand::Consolidate.as_str(), "consolidate");
    assert_eq!(daemon_binary(None, None), "lore-daemon");
    assert_eq!(daemon_binary(None, Some("/l".to_string())), "/l");
    assert_eq!(daemon_binary(Some("/s".to_string()), Some("/l".to_string())), "/s");
}

#[test]
fn terminals_are_tried_in_turn() {
    let mut tried = Vec::new();
    let mut t = next_terminal(None);
    while let Some(x) = t {
        tried.push(log_command(x, "/log").0);
        t = next_terminal(Some(x));
    }
    assert_eq!(
        tried,
        vec![
            "x-terminal-emulator",
            "gnome-terminal",
            "konsole",
            "xfce4-terminal",
            "alacritty",
            "kitty",
            "xterm",
        ]
    );
    assert_eq!(log_command(Terminal::Kitty, "/log").1, vec!["--", "tail", "-f", "/log"]);
}

// ---- icon ----

fn float_icon(size: u32, brightness: f64, orange: bool) -> Vec<u8> {
    let s = size as usize;
    let center = s as f64 / 2.0;
    let outer_r = center - 2.0;
    let housing_width = 2.5;
    let lens_r = outer_r - housing_width;
    let (base_r, base_g, base_b) = if orange { (1.0, 0.50, 0.06) } else { (1.0, 0.06, 0.02) };
    let mut rgba = vec![0u8; s * s * 4];
    for y in 0..s {
        for x in 0..s {
            let dx = x as f64 - center + 0.5;
            let dy = y as f64 - center + 0.5;
            let dist = (dx * dx + dy * dy).sqrt();
            let idx = (y * s + x) * 4;
            if dist > outer_r + 0.5 {
                continue;
            } else if dist > lens_r + 0.5 {
                let alpha = if dist > outer_r - 0.5 {
                    (outer_r + 0.5 - dist).clamp(0.0, 1.0)
                } else {
                    1.0
                };
                let ring_t = (dist - lens_r) / housing_width;
                let highlight = (1.0f64 - (ring_t - 0.4).abs() * 3.0).max(0.0) * 0.12;
                let grey = 0.10 + highlight;
                rgba[idx] = (grey * 255.0) as u8;
                rgba[idx + 1] = (grey * 255.0) as u8;
                rgba[idx + 2] = ((grey + 0.015) * 255.0) as u8;
                rgba[idx + 3] = (alpha * 255.0) as u8;
            } else {
                let nr = dist / lens_r;
                let total = ((-1.5 * nr * nr).exp() * 0.25 + (-3.5 * nr * nr).exp() * 0.7)
                    * brightness;
                let h = (-20.0 * nr * nr).exp() * brightness;
                let r = (0.02 + base_r * total + h).min(1.0);
                let g = (0.02 + base_g * total + h * 0.7).min(1.0);
                let b = (0.02 + base_b * total + h * 0.5).min(1.0);
                let alpha = if dist > lens_r - 1.0 {
                    (lens_r + 0.5 - dist).clamp(0.0, 1.0)
                } else {
                    1.0
                };
                rgba[idx] = (r * 255.0) as u8;
                rgba[idx + 1] = (g * 255.0) as u8;
                rgba[idx + 2] = (b * 255.0) as u8;
                rgba[idx + 3] = (alpha * 255.0) as u8;
            }
        }
    }
    rgba
}

#[test]
fn the_icon_is_drawn_as_the_formula_says() {
    for (size, brightness, orange) in [(ICON_SIZE, 1.0, false), (32, 0.15, false), (17, 0.6, true)]
    {
        let color = if orange { IconColor::Orange } else { IconColor::Red };
        let got = generate(size, (brightness * 1e9) as i64, color);
        let expected = float_icon(size, brightness, orange);
        assert_eq!(got.len(), expected.len());
        for i in 0..got.len() {
            let off = (got[i] as i32 - expected[i] as i32).abs();
            assert!(off <= 1, "byte {} of {}: {} for {}", i, size, got[i], expected[i]);
        }
    }
}

#[test]
fn tiny_icons_are_drawn_too() {
    assert!(generate(0, 0, IconColor::Red).is_empty());
    assert_eq!(generate(1, 0, IconColor::Red), vec![0, 0, 0, 0]);
    assert_eq!(
        compute_pixel(9, 0, IconColor::Red, 4, 4),
        Pixel { r: 255, g: 255, b: 255, a: 127 }
    );
    assert_eq!(
        compute_pixel(64, 1_000_000_000, IconColor::Red, 0, 0),
        Pixel { r: 0, g: 0, b: 0, a: 0 }
    );
}

#[test]
fn icons_are_symmetric_with_a_transparent_rim() {
    for size in [2u32, 9, 22, 32] {
        for color in [IconColor::Red, IconColor::Orange] {
            let last = size - 1;
            for y in 0..size {
                for x in 0..size {
                    let p = compute_pixel(size, 700_000_000, color, x, y);
                    assert_eq!(p, compute_pixel(size, 700_000_000, color, last - x, y));
                    assert_eq!(p, compute_pixel(size, 700_000_000, color, x, last - y));
                    assert_eq!(p, compute_pixel(size, 700_000_000, color, y, x));
                }
            }
            for k in 0..size {
                assert_eq!(
                    compute_pixel(size, 700_000_000, color, 0, k),
                    Pixel { r: 0, g: 0, b: 0, a: 0 }
                );
            }
        }
    }
}

#[test]
fn without_light_icons_have_no_hue() {
    assert_eq!(generate(22, 0, IconColor::Red), generate(22, 0, IconColor::Orange));
    assert_ne!(
        generate(22, 1_000_000_000, IconColor::Red),
        generate(22, 1_000_000_000, IconColor::Orange)
    );
}

// ---- explorer ----

fn entry(content: &str) -> ResultEntry {
    ResultEntry {
        id: FragmentId::new(),
        content: content.to_string(),
        depth: 0,
        score: 0,
        children_count: 0,
    }
}

#[test]
fn the_explorer_searches_level_by_level() {
    let mut db = LoreDb::new_without_embeddings(Storage::open_memory().unwrap());
    let root = db.insert(Fragment::new("Rust".to_string(), 0), None).unwrap();
    db.insert(Fragment::new("Rust async".to_string(), 1), Some(root)).unwrap();
    db.insert(Fragment::new("Go".to_string(), 0), None).unwrap();

    let (mut state, first) = ExplorerState::new();
    assert!(state.searching);
    let all = run_search(&mut db, &first, None, 0);
    state.take_results(all);
    assert!(!state.searching);
    assert_eq!(state.results.len(), 2);

    assert!(state.submit_search().is_none());
    state.query = "rust".to_string();
    let request = state.submit_search().unwrap();
    assert!(request.parent_ids.is_empty());
    let hits = run_search(&mut db, &request, None, 0);
    assert_eq!(hits.len(), 1);
    assert_eq!(hits[0].children_count, 1);
    state.take_results(hits);
    assert_eq!(state.depth_level, 1);

    let request = state.submit_search().unwrap();
    assert_eq!(request.parent_ids, vec![root]);
    let hits = run_search(&mut db, &request, None, 0);
    assert_eq!(hits.len(), 1);
    assert_eq!(hits[0].content, "Rust async");
    state.take_results(vec![]);
    assert!(state.shows_nothing_found());
    state.back_to_roots();
    assert_eq!(state.depth_level, 0);
    assert!(!state.shows_nothing_found());
}

#[test]
fn results_are_folded_and_labelled() {
    let (mut state, _) = ExplorerState::new();
    let id = FragmentId::new();
    state.toggle(id);
    assert_eq!(state.expanded, Some(id));
    state.toggle(id);
    assert!(state.expanded.is_none());
    let short = entry("short");
    assert_eq!(display_text(&short, false), "short");
    let long = entry(&"x".repeat(1000));
    assert!(display_text(&long, false).ends_with("..."));
    assert_eq!(display_text(&long, true).len(), 1000);
    assert_eq!(depth_label(3), "d3");
    assert_eq!(children_label(2), "2 children");
    assert_eq!(level_label(4), "Level 4");
}

#[test]
fn a_search_below_several_parents_takes_all_of_them() {
    let mut db = LoreDb::new_without_embeddings(Storage::open_memory().unwrap());
    let a = db.insert(Fragment::new("A".to_string(), 0), None).unwrap();
    let b = db.insert(Fragment::new("B".to_string(), 0), None).unwrap();
    for (p, text) in [(a, "rust one"), (b, "rust two"), (b, "go")] {
        let id = db.insert(Fragment::new(text.to_string(), 1), None).unwrap();
        db.link(p, id, EdgeKind::Hierarchical, 1_000_000_000).unwrap();
    }
    let request = SearchRequest { query: "rust".to_string(), parent_ids: vec![a, b] };
    let hits = run_search(&mut db, &request, None, 0);
    assert_eq!(hits.len(), 2);
    // What has faded out of sight is not found.
    let mut faded = Fragment::new("rust three".to_string(), 1);
    faded.relevance_score = 50_000_000;
    let id = faded.id;
    db.storage_mut().insert_fragment(&faded).unwrap();
    db.link(a, id, EdgeKind::Hierarchical, 1_000_000_000).unwrap();
    assert_eq!(run_search(&mut db, &request, None, 0).len(), 2);
}

#[test]
fn models_are_chosen_by_their_task() {
    let mut c = Config::for_home(None, "model-1".to_string());
    c.claude.extraction_model = Some("model-2".to_string());
    assert_eq!(c.extraction_model(), "model-2");
    assert_eq!(c.compression_model(), "model-2");
    c.claude.compression_model = Some("model-3".to_string());
    assert_eq!(c.extraction_model(), "model-2");
    assert_eq!(c.compression_model(), "model-3");
}

#[test]
fn no_turn_is_staged_twice() {
    let w = FileWatcher::new(None, "helper");
    let mut storage = Storage::open_memory().unwrap();
    let line = "{\"message\":{\"role\":\"user\",\"content\":\"Hello\"}}\r\n";
    let file = line.as_bytes().to_vec();
    let len = file.len() as i64;
    assert_eq!(w.ingest_at(&mut storage, "/a.jsonl", &file, 7), Ok(1));
    assert_eq!(storage.get_watermark("/a.jsonl"), Some((len, 7)));
    let staged = storage.get_staged_turns("/a.jsonl");
    assert_eq!(staged.len(), 1);
    assert_eq!(staged[0].role, "user");
    assert_eq!(staged[0].text, "Hello");
    assert_eq!(w.ingest(&mut storage, "/a.jsonl", &file), Ok(0));
    assert_eq!(storage.get_staged_turns("/a.jsonl").len(), 1);
    assert_eq!(w.ingest(&mut storage, "/a.jsonl", &line.repeat(2).into_bytes()), Ok(1));
    assert_eq!(storage.get_staged_turns("/a.jsonl").len(), 2);
    assert_eq!(w.ingest(&mut storage, "/b.jsonl", &b"{}".to_vec()), Ok(0));
    assert_eq!(storage.get_watermark("/b.jsonl"), None);
}
