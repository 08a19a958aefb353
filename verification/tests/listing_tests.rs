use media_browser::listing::{
    assemble_tree, extension_of, filter_sort_directories, filter_sort_photos, is_hidden_name,
    FsEntry,
};
use media_browser::order::lex_le_str;

fn dir(name: &str) -> FsEntry {
    FsEntry {
        name: name.to_string(),
        path: format!("/base/{}", name),
        is_dir: true,
        is_file: false,
    }
}

fn file(name: &str) -> FsEntry {
    FsEntry {
        name: name.to_string(),
        path: format!("/base/{}", name),
        is_dir: false,
        is_file: true,
    }
}

#[test]
fn directories_filtered_and_sorted_case_insensitively() {
    let entries = vec![
        dir("Beta"),
        dir(".hidden"),
        dir("alpha"),
        file("notes.txt"),
        dir("Zulu"),
        dir("delta"),
    ];
    let r = filter_sort_directories(&entries);
    let names: Vec<&str> = r.iter().map(|d| d.name.as_str()).collect();
    assert_eq!(names, vec!["alpha", "Beta", "delta", "Zulu"]);
    for d in &r {
        assert!(d.is_directory);
        assert!(!d.name.starts_with('.'));
        assert!(d.children.is_empty());
        assert!(d.path.starts_with("/base/"));
    }
}

#[test]
fn sort_ties_keep_enumeration_order() {
    let entries = vec![dir("Alpha"), dir("beta"), dir("alpha"), dir("ALPHA")];
    let r = filter_sort_directories(&entries);
    let names: Vec<&str> = r.iter().map(|d| d.name.as_str()).collect();
    assert_eq!(names, vec!["Alpha", "alpha", "ALPHA", "beta"]);
}

#[test]
fn directories_empty_input() {
    let r = filter_sort_directories(&Vec::new());
    assert!(r.is_empty());
}

#[test]
fn photos_extension_filter_and_order() {
    let entries = vec![
        file("zebra.png"),
        file("notes.txt"),
        file("photo.JPG"),
        dir("album.jpg"),
        file("noext"),
        file(".config"),
    ];
    let r = filter_sort_photos(&entries);
    let names: Vec<&str> = r.iter().map(|p| p.name.as_str()).collect();
    assert_eq!(names, vec!["photo.JPG", "zebra.png"]);
    for p in &r {
        assert!(!p.native_render);
    }
}

#[test]
fn photos_all_recognized_extensions() {
    let entries = vec![
        file("a.jpg"),
        file("b.jpeg"),
        file("c.png"),
        file("d.gif"),
        file("e.bmp"),
        file("f.tiff"),
        file("g.webp"),
        file("h.heic"),
        file("i.svg"),
        file("j.raw"),
    ];
    let r = filter_sort_photos(&entries);
    assert_eq!(r.len(), 9);
}

#[test]
fn extension_cases() {
    assert_eq!(extension_of("photo.JPG").as_deref(), Some("JPG"));
    assert_eq!(extension_of("archive.tar.gz").as_deref(), Some("gz"));
    assert_eq!(extension_of(".hidden"), None);
    assert_eq!(extension_of("noext"), None);
    assert_eq!(extension_of("trailing.").as_deref(), Some(""));
}

#[test]
fn hidden_names() {
    assert!(is_hidden_name(".git"));
    assert!(!is_hidden_name("git"));
    assert!(!is_hidden_name(""));
}

#[test]
fn lexicographic_string_order() {
    assert!(lex_le_str("alpha", "beta"));
    assert!(!lex_le_str("beta", "alpha"));
    assert!(lex_le_str("abc", "abc"));
    assert!(lex_le_str("ab", "abc"));
    assert!(!lex_le_str("abc", "ab"));
}

#[test]
fn tree_depth_capped_and_children_present() {
    let root_entries = vec![dir("music"), dir("pics"), dir(".cache")];
    let children = filter_sort_directories(&root_entries);
    assert_eq!(children.len(), 2);
    let grand_entries = vec![
        vec![dir("2023"), dir(".thumbs"), file("song.mp3"), dir("2021")],
        Vec::new(),
    ];
    let tree = assemble_tree(
        "home".to_string(),
        "/base".to_string(),
        children,
        grand_entries,
    );
    assert_eq!(tree.name, "home");
    assert_eq!(tree.path, "/base");
    assert!(tree.is_directory);
    assert_eq!(tree.children.len(), 2);
    assert_eq!(tree.children[0].name, "music");
    let grand_names: Vec<&str> =
        tree.children[0].children.iter().map(|d| d.name.as_str()).collect();
    assert_eq!(grand_names, vec!["2021", "2023"]);
    // a child with no readable subdirectories has an empty, not absent, list
    assert_eq!(tree.children[1].name, "pics");
    assert!(tree.children[1].children.is_empty());
    // the depth cap: no grandchild carries children of its own
    for c in &tree.children {
        for g in &c.children {
            assert!(g.children.is_empty());
            assert!(g.is_directory);
        }
    }
}
