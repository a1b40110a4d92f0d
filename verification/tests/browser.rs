use image_collage::explorer::{Entry, FileExplorer};
use image_collage::utils::parent_path_of;

fn b(s: &str) -> Vec<u8> {
    s.as_bytes().to_vec()
}

fn entry(p: &str, is_dir: bool) -> Entry {
    Entry { path: b(p), is_dir }
}

#[test]
fn refresh_orders_directories_first_then_by_name() {
    let mut ex = FileExplorer::new(b("/"));
    let children = vec![
        entry("/b.png", false),
        entry("/A.txt", false),
        entry("/a.jpg", false),
        entry("/Sub", true),
    ];
    ex.refresh_entries(b("/"), &children);
    let entries = ex.entries();
    assert_eq!(entries.len(), 3);
    assert_eq!(entries[0].path, b("/Sub"));
    assert!(entries[0].is_dir);
    assert_eq!(entries[1].path, b("/a.jpg"));
    assert_eq!(entries[2].path, b("/b.png"));
    assert_eq!(ex.selected_index(), 0);
    assert_eq!(ex.current_dir(), &b("/"));
}

#[test]
fn refresh_includes_parent_directory() {
    let mut ex = FileExplorer::new(b("/pics"));
    let children = vec![entry("/pics/x.png", false), entry("/pics/album", true)];
    ex.refresh_entries(b("/pics"), &children);
    let entries = ex.entries();
    assert_eq!(entries.len(), 3);
    assert_eq!(entries[0].path, b("/"));
    assert!(entries[0].is_dir);
    assert_eq!(entries[1].path, b("/pics/album"));
    assert!(entries[1].is_dir);
    assert_eq!(entries[2].path, b("/pics/x.png"));
}

#[test]
fn cursor_clamps_at_both_ends() {
    let mut ex = FileExplorer::new(b("/"));
    let children = vec![
        entry("/a.jpg", false),
        entry("/b.jpg", false),
        entry("/c.jpg", false),
    ];
    ex.refresh_entries(b("/"), &children);
    assert_eq!(ex.selected_index(), 0);
    ex.move_up();
    assert_eq!(ex.selected_index(), 0);
    ex.move_down();
    ex.move_down();
    assert_eq!(ex.selected_index(), 2);
    ex.move_down();
    assert_eq!(ex.selected_index(), 2);
    ex.move_up();
    assert_eq!(ex.selected_index(), 1);
}

#[test]
fn cursor_is_noop_on_empty_listing() {
    let mut ex = FileExplorer::new(b("/"));
    ex.refresh_entries(b("/"), &Vec::new());
    ex.move_down();
    assert_eq!(ex.selected_index(), 0);
    ex.move_up();
    assert_eq!(ex.selected_index(), 0);
    assert_eq!(ex.enter_selected(), None);
}

#[test]
fn toggling_the_same_path_twice_restores_membership() {
    let mut ex = FileExplorer::new(b("/"));
    let children = vec![entry("/a.jpg", false), entry("/b.jpg", false)];
    ex.refresh_entries(b("/"), &children);
    assert_eq!(ex.enter_selected(), None);
    assert_eq!(ex.selected_images().len(), 1);
    assert_eq!(ex.selected_images()[0], b("/a.jpg"));
    assert_eq!(ex.enter_selected(), None);
    assert_eq!(ex.selected_images().len(), 0);
}

#[test]
fn fifth_distinct_insertion_is_ignored() {
    let mut ex = FileExplorer::new(b("/"));
    let children = vec![
        entry("/a.jpg", false),
        entry("/b.jpg", false),
        entry("/c.jpg", false),
        entry("/d.jpg", false),
        entry("/e.jpg", false),
    ];
    ex.refresh_entries(b("/"), &children);
    for _ in 0..4 {
        ex.enter_selected();
        ex.move_down();
    }
    assert_eq!(ex.selected_images().len(), 4);
    ex.enter_selected();
    assert_eq!(ex.selected_images().len(), 4);
    assert_eq!(ex.selected_images()[0], b("/a.jpg"));
    assert_eq!(ex.selected_images()[1], b("/b.jpg"));
    assert_eq!(ex.selected_images()[2], b("/c.jpg"));
    assert_eq!(ex.selected_images()[3], b("/d.jpg"));
}

#[test]
fn commit_is_unavailable_below_four_selections() {
    let mut ex = FileExplorer::new(b("/"));
    let children = vec![
        entry("/a.jpg", false),
        entry("/b.jpg", false),
        entry("/c.jpg", false),
        entry("/d.jpg", false),
    ];
    ex.refresh_entries(b("/"), &children);
    assert!(ex.commit().is_none());
    for step in 0..4 {
        assert!(ex.commit().is_none() || step == 4);
        ex.enter_selected();
        ex.move_down();
    }
    let paths = ex.commit().expect("four selections commit");
    assert_eq!(paths.len(), 4);
    assert_eq!(paths[0], b("/a.jpg"));
    assert_eq!(paths[1], b("/b.jpg"));
    assert_eq!(paths[2], b("/c.jpg"));
    assert_eq!(paths[3], b("/d.jpg"));
}

#[test]
fn commit_returns_paths_in_selection_order() {
    let mut ex = FileExplorer::new(b("/"));
    let children = vec![
        entry("/a.jpg", false),
        entry("/b.jpg", false),
        entry("/c.jpg", false),
        entry("/d.jpg", false),
    ];
    ex.refresh_entries(b("/"), &children);
    ex.move_down();
    ex.move_down();
    ex.move_down();
    ex.enter_selected();
    ex.move_up();
    ex.enter_selected();
    ex.move_up();
    ex.enter_selected();
    ex.move_up();
    ex.enter_selected();
    let paths = ex.commit().expect("four selections commit");
    assert_eq!(paths[0], b("/d.jpg"));
    assert_eq!(paths[1], b("/c.jpg"));
    assert_eq!(paths[2], b("/b.jpg"));
    assert_eq!(paths[3], b("/a.jpg"));
}

#[test]
fn entering_a_directory_is_a_navigation_request() {
    let mut ex = FileExplorer::new(b("/"));
    let children = vec![entry("/Sub", true), entry("/a.jpg", false)];
    ex.refresh_entries(b("/"), &children);
    let request = ex.enter_selected();
    assert_eq!(request, Some(b("/Sub")));
    assert_eq!(ex.current_dir(), &b("/"));
    assert_eq!(ex.selected_images().len(), 0);
    ex.refresh_entries(b("/Sub"), &Vec::new());
    assert_eq!(ex.current_dir(), &b("/Sub"));
    assert_eq!(ex.entries().len(), 1);
    assert_eq!(ex.entries()[0].path, b("/"));
}

#[test]
fn go_up_requests_the_parent_directory() {
    let mut ex = FileExplorer::new(b("/a/b"));
    assert_eq!(ex.go_up(), Some(b("/a")));
    assert_eq!(ex.current_dir(), &b("/a/b"));
    let mut root = FileExplorer::new(b("/"));
    assert_eq!(root.go_up(), None);
}

#[test]
fn parent_path_walks_up_to_the_root() {
    assert_eq!(parent_path_of(&b("/a/b/c")), Some(b("/a/b")));
    assert_eq!(parent_path_of(&b("/a")), Some(b("/")));
    assert_eq!(parent_path_of(&b("/")), None);
    assert_eq!(parent_path_of(&b("name")), None);
}
