use freightview::docker_file_tree::DDiveFileType;
use freightview::docker_image_utils::ImageLayer;
use freightview::file_tree::{EntryMetadata, FileTree, FileTreeNode};
use freightview::gui_app::{App, Focus, Key, TreeAction};
use freightview::sorting::stable_order;
use freightview::text::{chars_le, same_chars, split_path, starts_with, to_chars};
use freightview::widgets::focus_traits::WidgetFocusTrait;
use freightview::widgets::layer_browser_widget::{LayerBrowserWidget, LayerBrowserWidgetState};
use freightview::widgets::multitree_browser_widget::MultiTreeBrowserWidget;
use freightview::widgets::navigation_traits::{WidgetNav, WidgetNavBounds};
use freightview::widgets::searchbar::{SearchBarWidget, SearchBarWidgetState};
use freightview::widgets::tree_browser_widget::TreeBrowserWidget;

fn chars(s: &str) -> Vec<char> {
    s.chars().collect()
}

fn names(list: &[&str]) -> Vec<String> {
    list.iter().map(|s| s.to_string()).collect()
}

fn layer(name: &str) -> ImageLayer {
    let dir = EntryMetadata { is_symlink: false, is_file: false, is_dir: true, mode: Some(0o755), size: 0 };
    let file = EntryMetadata { is_symlink: false, is_file: true, is_dir: false, mode: Some(0o644), size: 1 };
    let mut root = FileTreeNode::from("/", &dir).unwrap();
    root.add_child(FileTreeNode::from("/bin", &dir).unwrap());
    root.add_child(FileTreeNode::from("/boot", &file).unwrap());
    root.add_child(FileTreeNode::from("/etc", &dir).unwrap());
    ImageLayer::new(name.to_string(), FileTree::new_from_node(root), format!("RUN {}", name))
}

#[test]
fn search_bar_takes_and_gives_characters() {
    let mut state = SearchBarWidgetState::new();
    assert_eq!(state.get(), "");
    assert_eq!(state.title(), "Search");
    assert!(!state.is_focused());
    state.pop_c();
    assert_eq!(state.get(), "");
    state.push_c('e');
    state.push_c('t');
    state.push_c('é');
    assert_eq!(state.get(), "eté");
    state.pop_c();
    assert_eq!(state.get(), "et");
    state.push_c('c');
    assert_eq!(state.get(), "etc");
    state.focus_on(true);
    assert!(state.is_focused());
    assert_eq!(state.title(), "😍 Search Bar");
    assert_eq!(state.get(), "etc");
    state.focus_on(false);
    assert!(!state.is_focused());
    assert_eq!(state.title(), "Search Bar");
}

#[test]
fn search_bar_shows_cursor_and_placeholder() {
    let bar = SearchBarWidget::new();
    assert!(bar.should_blink(0));
    assert!(bar.should_blink(499));
    assert!(!bar.should_blink(500));
    assert!(!bar.should_blink(999));
    assert!(bar.should_blink(1000));
    assert!(!bar.should_blink(1_700_000_000_750));
    let mut state = SearchBarWidgetState::new();
    assert_eq!(bar.display_text(&state, true), "Filter here...");
    state.focus_on(true);
    assert_eq!(bar.display_text(&state, true), "█");
    assert_eq!(bar.display_text(&state, false), "");
    state.push_c('a');
    assert_eq!(bar.display_text(&state, true), "a█");
    assert_eq!(bar.display_text(&state, false), "a");
    state.focus_on(false);
    assert_eq!(bar.display_text(&state, true), "a");
}

#[test]
fn layer_list_moves_and_stays_in_bounds() {
    let layer_names = names(&["l0", "l1", "l2"]);
    let layer_commands = names(&["c0", "c1", "c2"]);
    let list = LayerBrowserWidget::new(&layer_names, &layer_commands);
    let mut state = LayerBrowserWidgetState::new();
    assert_eq!(state.selected(), Some(0));
    assert!(state.is_focused());
    assert_eq!(state.title(), "Layer Browser");
    assert_eq!(list.shown_command(&state), Some(&"c0".to_string()));
    state.prev();
    assert_eq!(state.selected(), Some(0));
    state.next();
    state.next();
    assert_eq!(state.selected(), Some(2));
    assert_eq!(list.shown_command(&state), Some(&"c2".to_string()));
    state.next();
    assert_eq!(state.selected(), Some(3));
    assert_eq!(list.shown_command(&state), None);
    list.ensure_bounds(&mut state);
    assert_eq!(state.selected(), Some(2));
    state.prev();
    assert_eq!(state.selected(), Some(1));
    state.select(None);
    assert_eq!(list.shown_command(&state), Some(&"c0".to_string()));
    list.ensure_bounds(&mut state);
    assert_eq!(state.selected(), None);
    state.next();
    assert_eq!(state.selected(), Some(0));
    state.select(None);
    state.prev();
    assert_eq!(state.selected(), Some(0));
    state.select(Some(usize::MAX));
    state.next();
    assert_eq!(state.selected(), Some(usize::MAX));
    list.ensure_bounds(&mut state);
    assert_eq!(state.selected(), Some(2));
    state.focus_on(false);
    assert_eq!(state.title(), "Layer Browser");
    assert!(!state.is_focused());
    state.focus_on(true);
    assert_eq!(state.title(), "😍 Layer Browser");
    assert_eq!(list.layer_names(), &layer_names);

    let no_names: Vec<String> = vec![];
    let empty = LayerBrowserWidget::new(&no_names, &no_names);
    state.select(Some(4));
    empty.ensure_bounds(&mut state);
    assert_eq!(state.selected(), Some(4));
}

#[test]
fn tree_browsers_find_and_narrow_layers() {
    let layers = vec![layer("a"), layer("b"), layer("a")];
    let all = MultiTreeBrowserWidget::new(&layers);
    assert!(std::ptr::eq(all.layer("a").unwrap(), &layers[2]));
    assert!(std::ptr::eq(all.layer("b").unwrap(), &layers[1]));
    assert!(all.layer("c").is_none());

    let browser = TreeBrowserWidget::new(&layers[1]);
    assert_eq!(browser.corresponding_layer().name, "b");
    let (shown, failed) = browser.shown_tree("b");
    assert!(!failed);
    assert_eq!(shown.root().get_children_names(), vec!["bin", "boot"]);
    let (shown, failed) = browser.shown_tree("x");
    assert!(failed);
    assert_eq!(shown, layers[1].tree);
    let (shown, failed) = browser.shown_tree("");
    assert!(!failed);
    assert_eq!(shown, layers[1].tree);
    assert_eq!(TreeBrowserWidget::entry_label("dev", DDiveFileType::Badfile), "dev (invalid)");
    assert_eq!(TreeBrowserWidget::entry_label("etc", DDiveFileType::Directory), "etc");
    assert_eq!(TreeBrowserWidget::entry_label("l", DDiveFileType::Symlink), "l");
}

#[test]
fn keys_move_the_focus_and_the_selection() {
    let mut app = App::new(names(&["l0", "l1"]));
    assert_eq!(app.focus(), Focus::List);
    assert!(!app.should_exit());
    assert_eq!(app.current_layer(), "l0");
    assert_eq!(app.handle_key(Key::Down), TreeAction::Nothing);
    assert_eq!(app.current_layer(), "l1");
    assert_eq!(app.list_state().selected(), Some(1));
    assert_eq!(app.handle_key(Key::Down), TreeAction::Nothing);
    // behind the last layer: the selection moves, the tree stays
    assert_eq!(app.list_state().selected(), Some(2));
    assert_eq!(app.current_layer(), "l1");
    let layer_names = names(&["l0", "l1"]);
    let layer_commands = names(&["c0", "c1"]);
    app.bound_list(&LayerBrowserWidget::new(&layer_names, &layer_commands));
    assert_eq!(app.list_state().selected(), Some(1));
    assert_eq!(app.handle_key(Key::Up), TreeAction::Nothing);
    assert_eq!(app.current_layer(), "l0");
    assert_eq!(app.handle_key(Key::Char(' ')), TreeAction::Toggle);

    assert_eq!(app.handle_key(Key::Tab), TreeAction::Nothing);
    assert_eq!(app.focus(), Focus::Tree);
    assert!(app.tree_is_focused());
    assert!(!app.list_state().is_focused());
    assert_eq!(app.handle_key(Key::Down), TreeAction::Next);
    assert_eq!(app.handle_key(Key::Up), TreeAction::Previous);
    assert_eq!(app.handle_key(Key::Char(' ')), TreeAction::Toggle);
    assert_eq!(app.handle_key(Key::Other), TreeAction::Nothing);
    assert_eq!(app.list_state().selected(), Some(0));

    assert_eq!(app.handle_key(Key::Control('f')), TreeAction::Nothing);
    assert_eq!(app.focus(), Focus::SearchBar);
    assert!(app.search_bar_state().is_focused());
    assert!(!app.tree_is_focused());
    for c in "et q".chars() {
        assert_eq!(app.handle_key(Key::Char(c)), TreeAction::Nothing);
    }
    assert_eq!(app.search_string(), "et q");
    assert!(!app.should_exit());
    app.handle_key(Key::Backspace);
    app.handle_key(Key::Backspace);
    assert_eq!(app.search_string(), "et");
    assert_eq!(app.search_bar_state().get(), "et");
    assert_eq!(app.handle_key(Key::Down), TreeAction::Nothing);
    assert_eq!(app.handle_key(Key::Tab), TreeAction::Nothing);
    assert_eq!(app.focus(), Focus::SearchBar);
    app.handle_key(Key::Enter);
    assert_eq!(app.focus(), Focus::Tree);
    app.handle_key(Key::Control('f'));
    app.handle_key(Key::Esc);
    assert_eq!(app.focus(), Focus::List);
    assert!(app.list_state().is_focused());
    assert!(!app.search_bar_state().is_focused());
    assert_eq!(app.search_string(), "et");

    assert_eq!(app.handle_key(Key::Control('q')), TreeAction::Nothing);
    assert!(!app.should_exit());
    assert_eq!(app.handle_key(Key::Char('q')), TreeAction::Nothing);
    assert!(app.should_exit());
}

#[test]
fn names_are_ordered_by_code_point() {
    let le = |a: &str, b: &str| chars_le(&chars(a), &chars(b));
    assert!(le("", ""));
    assert!(le("", "a"));
    assert!(!le("a", ""));
    assert!(le("a", "a"));
    assert!(le("a", "ab"));
    assert!(!le("ab", "a"));
    assert!(le("Z", "a"));
    assert!(le(".wh.a", "a"));
    assert!(le("a", "é"));
    assert!(!le("é", "z"));
    for (a, b) in [("abc", "abd"), ("b", "abc"), ("é", "e\u{301}"), ("\u{10000}", "\u{ffff}")] {
        assert_eq!(le(a, b), a <= b);
        assert_eq!(le(b, a), b <= a);
    }
    assert!(same_chars(&chars("aé"), &chars("aé")));
    assert!(!same_chars(&chars("a"), &chars("ab")));
    assert!(!same_chars(&chars("ab"), &chars("ac")));
    assert!(starts_with(&chars("subtest"), &chars("sub")));
    assert!(starts_with(&chars("sub"), &chars("sub")));
    assert!(starts_with(&chars("sub"), &chars("")));
    assert!(!starts_with(&chars("su"), &chars("sub")));
    assert!(!starts_with(&chars("sab"), &chars("sub")));
    assert_eq!(to_chars("aé😍"), vec!['a', 'é', '😍']);
}

#[test]
fn typed_paths_are_split_at_separators() {
    let split = |s: &str| -> Vec<String> { split_path(s).iter().map(|p| p.iter().collect()).collect() };
    assert_eq!(split("/etc/apt/tr"), vec!["etc", "apt", "tr"]);
    assert_eq!(split("etc"), vec!["etc"]);
    assert_eq!(split("//etc///apt//"), vec!["etc", "apt"]);
    assert!(split("").is_empty());
    assert!(split("////").is_empty());
    assert_eq!(split(" /a b/"), vec![" ", "a b"]);
}

#[test]
fn sorting_is_stable() {
    let keys: Vec<Vec<char>> = ["b", "a", "c", "a", "b", ""].iter().map(|s| chars(s)).collect();
    assert_eq!(stable_order(&keys), vec![5, 1, 3, 0, 4, 2]);
    assert_eq!(stable_order(&vec![]), Vec::<usize>::new());
    let keys: Vec<Vec<char>> = ["x10", "x9", "x1", "X"].iter().map(|s| chars(s)).collect();
    assert_eq!(stable_order(&keys), vec![3, 2, 0, 1]);
}
