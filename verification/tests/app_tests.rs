use rmd::app::{App, AppMode, Focus, Settings, Theme, WrapWidth};
use rmd::file_tree::{insert_path, prune_empty_dirs, NodeOp, TreeNode};
use rmd::search::FileText;

fn settings() -> Settings {
    Settings { show_line_numbers: true, theme: Theme::Dark, wrap_width: WrapWidth::Chars120 }
}

fn sample_tree() -> TreeNode {
    let mut root = TreeNode::new("root".to_string(), "/r".to_string(), true, 0);
    insert_path(
        &mut root,
        &"/r/docs".to_string(),
        &vec!["docs".to_string()],
        0,
        0,
        true,
    );
    insert_path(
        &mut root,
        &"/r/docs/guide.md".to_string(),
        &vec!["docs".to_string(), "guide.md".to_string()],
        0,
        0,
        false,
    );
    insert_path(
        &mut root,
        &"/r/zeta.md".to_string(),
        &vec!["zeta.md".to_string()],
        0,
        0,
        false,
    );
    insert_path(
        &mut root,
        &"/r/README.md".to_string(),
        &vec!["README.md".to_string()],
        0,
        0,
        false,
    );
    prune_empty_dirs(&mut root);
    root
}

#[test]
fn wrap_width_cycle_and_labels() {
    assert_eq!(WrapWidth::Chars80.to_usize(), Some(80));
    assert_eq!(WrapWidth::Chars120.to_usize(), Some(120));
    assert_eq!(WrapWidth::NoWrap.to_usize(), None);
    assert_eq!(WrapWidth::Chars80.next(), WrapWidth::Chars120);
    assert_eq!(WrapWidth::Chars120.next(), WrapWidth::NoWrap);
    assert_eq!(WrapWidth::NoWrap.next(), WrapWidth::Chars80);
    assert_eq!(WrapWidth::Chars80.display_name(), "80 characters");
    assert_eq!(WrapWidth::NoWrap.display_name(), "No wrap");
}

#[test]
fn default_settings() {
    let s: Settings = Default::default();
    assert!(s.show_line_numbers);
    assert_eq!(s.theme, Theme::Dark);
    assert_eq!(s.wrap_width, WrapWidth::Chars120);
}

#[test]
fn new_app_shows_welcome() {
    let app = App::new("/r".to_string(), sample_tree(), settings());
    assert_eq!(app.mode, AppMode::Normal);
    assert_eq!(app.focus, Focus::Sidebar);
    assert!(app.rendered_content.len() > 10);
    assert_eq!(app.rendered_content[0].to_plain_string(), "Welcome to rmd!");
    assert_eq!(app.rendered_content[0].heading_level, 1);
}

#[test]
fn tree_children_sorted_dirs_first() {
    let tree = sample_tree();
    assert_eq!(tree.children.len(), 3);
    assert_eq!(tree.children[0].name, "docs");
    assert!(tree.children[0].is_dir);
    assert_eq!(tree.children[1].name, "README.md");
    assert_eq!(tree.children[2].name, "zeta.md");
}

#[test]
fn prune_removes_empty_directories() {
    let mut root = TreeNode::new("root".to_string(), "/r".to_string(), true, 0);
    insert_path(
        &mut root,
        &"/r/empty".to_string(),
        &vec!["empty".to_string()],
        0,
        0,
        true,
    );
    insert_path(
        &mut root,
        &"/r/a.md".to_string(),
        &vec!["a.md".to_string()],
        0,
        0,
        false,
    );
    prune_empty_dirs(&mut root);
    assert_eq!(root.children.len(), 1);
    assert_eq!(root.children[0].name, "a.md");
}

#[test]
fn visible_items_follow_expansion() {
    let mut tree = sample_tree();
    // Root is expanded, "docs" starts collapsed.
    assert_eq!(tree.visible_items().len(), 4);
    assert!(tree.apply_at(1, NodeOp::Toggle));
    assert_eq!(tree.visible_items().len(), 5);
    let names: Vec<String> = tree.visible_items().iter().map(|n| n.name.clone()).collect();
    assert_eq!(names, vec!["root", "docs", "guide.md", "README.md", "zeta.md"]);
    assert_eq!(tree.find_parent_index(2), Some(1));
    assert_eq!(tree.find_parent_index(1), Some(0));
    assert_eq!(tree.find_parent_index(0), None);
}

#[test]
fn collect_all_files_in_display_order() {
    let tree = sample_tree();
    let files = tree.collect_all_files();
    assert_eq!(
        files,
        vec![
            "/r/docs/guide.md".to_string(),
            "/r/README.md".to_string(),
            "/r/zeta.md".to_string(),
        ]
    );
}

#[test]
fn select_first_file_prefers_readme() {
    let mut app = App::new("/r".to_string(), sample_tree(), settings());
    let picked = app.select_first_file();
    assert_eq!(picked, Some("/r/README.md".to_string()));
    assert_eq!(app.selected_index, 2);
}

#[test]
fn select_first_file_falls_back_to_first_file() {
    let mut root = TreeNode::new("root".to_string(), "/r".to_string(), true, 0);
    insert_path(
        &mut root,
        &"/r/notes.md".to_string(),
        &vec!["notes.md".to_string()],
        0,
        0,
        false,
    );
    let mut app = App::new("/r".to_string(), root, settings());
    let picked = app.select_first_file();
    assert_eq!(picked, Some("/r/notes.md".to_string()));
    assert_eq!(app.selected_index, 1);
}

#[test]
fn toggle_or_select_returns_file_paths() {
    let mut app = App::new("/r".to_string(), sample_tree(), settings());
    app.selected_index = 2;
    assert_eq!(app.toggle_or_select(), Some("/r/README.md".to_string()));
    app.selected_index = 1;
    assert_eq!(app.toggle_or_select(), None);
    assert!(app.tree.children[0].expanded);
}

#[test]
fn navigation_clamps_in_sidebar() {
    let mut app = App::new("/r".to_string(), sample_tree(), settings());
    assert_eq!(app.selected_index, 0);
    app.previous();
    assert_eq!(app.selected_index, 0);
    app.next();
    assert_eq!(app.selected_index, 1);
    app.page_down();
    assert_eq!(app.selected_index, 3);
    app.page_up();
    assert_eq!(app.selected_index, 0);
}

#[test]
fn content_scroll_clamps_to_wrapped_count() {
    let mut app = App::new("/r".to_string(), sample_tree(), settings());
    app.focus = Focus::Content;
    let mut text = String::new();
    for i in 0..50 {
        text.push_str(&format!("line number {}\n\n", i));
    }
    app.load_document("/r/x.md".to_string(), &text);
    app.set_content_height(12);
    assert_eq!(app.content_height, 10);
    let total = app.total_wrapped_lines();
    app.scroll_to_bottom();
    assert_eq!(app.content_scroll, total - 10);
    app.next();
    assert_eq!(app.content_scroll, total - 10);
    app.scroll_content_to_top();
    assert_eq!(app.content_scroll, 0);
    app.page_down();
    assert_eq!(app.content_scroll, 10);
    app.previous();
    assert_eq!(app.content_scroll, 9);
}

#[test]
fn half_page_and_wheel_scroll_clamp() {
    let mut app = App::new("/r".to_string(), sample_tree(), settings());
    app.focus = Focus::Content;
    let mut text = String::new();
    for i in 0..30 {
        text.push_str(&format!("line {}\n\n", i));
    }
    app.load_document("/r/x.md".to_string(), &text);
    app.set_content_height(12);
    let max_scroll = app.total_wrapped_lines() - 10;
    app.half_page_down();
    assert_eq!(app.content_scroll, 5);
    app.scroll_wheel_down();
    assert_eq!(app.content_scroll, 8);
    app.scroll_wheel_up();
    assert_eq!(app.content_scroll, 5);
    app.half_page_up();
    assert_eq!(app.content_scroll, 0);
    app.scroll_wheel_up();
    assert_eq!(app.content_scroll, 0);
    for _ in 0..100 {
        app.half_page_down();
    }
    assert_eq!(app.content_scroll, max_scroll);
}

#[test]
fn parent_lookup_out_of_range_is_none() {
    let tree = sample_tree();
    assert_eq!(tree.find_parent_index(100), None);
}

#[test]
fn load_error_shows_single_line() {
    let mut app = App::new("/r".to_string(), sample_tree(), settings());
    app.load_error("/r/bad.md".to_string(), "Error reading file: denied");
    assert_eq!(app.rendered_content.len(), 1);
    assert_eq!(app.rendered_content[0].to_plain_string(), "Error reading file: denied");
    assert_eq!(app.current_file, Some("/r/bad.md".to_string()));
}

#[test]
fn doc_search_matches_case_insensitively() {
    let mut app = App::new("/r".to_string(), sample_tree(), settings());
    app.load_document("/r/x.md".to_string(), "Hello World\n\nplain\n\nfoo HELLO bar");
    app.enter_doc_search_mode();
    for c in "hello".chars() {
        app.doc_search_add_char(c);
    }
    assert_eq!(app.doc_search_query, "hello");
    assert_eq!(app.doc_search_matches, vec![0, 4]);
    assert_eq!(app.doc_search_current, 0);
}

#[test]
fn doc_search_empty_query_matches_nothing() {
    let mut app = App::new("/r".to_string(), sample_tree(), settings());
    app.load_document("/r/x.md".to_string(), "anything at all");
    app.enter_doc_search_mode();
    app.doc_search_add_char('a');
    assert!(!app.doc_search_matches.is_empty());
    app.doc_search_backspace();
    assert!(app.doc_search_matches.is_empty());
}

#[test]
fn doc_search_cursor_wraps_both_ways() {
    let mut app = App::new("/r".to_string(), sample_tree(), settings());
    app.load_document("/r/x.md".to_string(), "hit\n\nhit\n\nhit");
    app.enter_doc_search_mode();
    for c in "hit".chars() {
        app.doc_search_add_char(c);
    }
    assert_eq!(app.doc_search_matches, vec![0, 2, 4]);
    app.doc_search_next();
    assert_eq!(app.doc_search_current, 1);
    app.doc_search_next();
    assert_eq!(app.doc_search_current, 2);
    app.doc_search_next();
    assert_eq!(app.doc_search_current, 0);
    app.doc_search_previous();
    assert_eq!(app.doc_search_current, 2);
}

#[test]
fn doc_search_centers_the_match() {
    let mut app = App::new("/r".to_string(), sample_tree(), settings());
    let mut text = String::new();
    for i in 0..40 {
        text.push_str(&format!("row {}\n\n", i));
    }
    text.push_str("needle");
    app.load_document("/r/x.md".to_string(), &text);
    app.set_content_height(12);
    app.enter_doc_search_mode();
    for c in "needle".chars() {
        app.doc_search_add_char(c);
    }
    assert_eq!(app.doc_search_matches.len(), 1);
    let total = app.total_wrapped_lines();
    let max_scroll = total - 10;
    // The match is the last source line; centering clamps to the bottom.
    assert_eq!(app.content_scroll, max_scroll);
}

#[test]
fn file_search_previews_and_counts() {
    let mut app = App::new("/r".to_string(), sample_tree(), settings());
    app.enter_search_mode();
    for c in "foo".chars() {
        app.search_add_char(c);
    }
    let files = vec![
        FileText {
            path: "/r/a.md".to_string(),
            name: "a.md".to_string(),
            content: "  Foo leads this line\nand FOO again".to_string(),
        },
        FileText {
            path: "/r/b.md".to_string(),
            name: "b.md".to_string(),
            content: "nothing here".to_string(),
        },
        FileText {
            path: "/r/c.md".to_string(),
            name: "c.md".to_string(),
            content: "one foo only".to_string(),
        },
    ];
    app.perform_search(&files);
    assert_eq!(app.search_results.len(), 2);
    assert_eq!(app.search_results[0].path, "/r/a.md");
    assert_eq!(app.search_results[0].match_preview, "Foo leads this line (2 matches)");
    assert_eq!(app.search_results[1].path, "/r/c.md");
    assert_eq!(app.search_results[1].match_preview, "one foo only");
}

#[test]
fn search_select_carries_query_into_doc_search() {
    let mut app = App::new("/r".to_string(), sample_tree(), settings());
    app.enter_search_mode();
    for c in "foo".chars() {
        app.search_add_char(c);
    }
    let files = vec![FileText {
        path: "/r/a.md".to_string(),
        name: "a.md".to_string(),
        content: "foo".to_string(),
    }];
    app.perform_search(&files);
    let picked = app.search_select();
    assert_eq!(picked, Some("/r/a.md".to_string()));
    assert_eq!(app.mode, AppMode::DocumentSearch);
    assert_eq!(app.focus, Focus::Content);
    assert_eq!(app.doc_search_query, "foo");
    assert!(app.search_query.is_empty());
}

#[test]
fn settings_toggle_and_move() {
    let mut app = App::new("/r".to_string(), sample_tree(), settings());
    app.enter_settings_mode();
    assert_eq!(app.mode, AppMode::Settings);
    app.settings_toggle_current();
    assert!(!app.settings.show_line_numbers);
    app.settings_next();
    app.settings_toggle_current();
    assert_eq!(app.settings.theme, Theme::Light);
    app.settings_next();
    app.settings_toggle_current();
    assert_eq!(app.settings.wrap_width, WrapWidth::NoWrap);
    app.settings_next();
    assert_eq!(app.settings_selected, 2);
    app.settings_previous();
    assert_eq!(app.settings_selected, 1);
    app.exit_settings_mode();
    assert_eq!(app.mode, AppMode::Normal);
}

#[test]
fn focus_moves_between_panes() {
    let mut app = App::new("/r".to_string(), sample_tree(), settings());
    app.toggle_focus();
    assert_eq!(app.focus, Focus::Content);
    app.focus_sidebar_or_collapse();
    assert_eq!(app.focus, Focus::Sidebar);
    app.selected_index = 2;
    let picked = app.focus_content_or_select();
    assert_eq!(picked, Some("/r/README.md".to_string()));
    assert_eq!(app.focus, Focus::Content);
}

#[test]
fn collapse_or_parent_moves_to_parent() {
    let mut app = App::new("/r".to_string(), sample_tree(), settings());
    app.tree.apply_at(1, NodeOp::Expand);
    app.selected_index = 2;
    app.collapse_or_parent();
    assert_eq!(app.selected_index, 1);
    app.collapse_or_parent();
    assert!(!app.tree.children[0].expanded);
}
