use mount_fs::fs::{directory_metadata, DirEntry, FileType, FsError, Metadata, ReadDir};
use mount_fs::listing::{overlay_entries, rebase_entries};
use mount_fs::path::{
    absolute_path, collect_path, components, file_name, join, normalize_path_components, Component,
};

fn names(items: &[&str]) -> Vec<Vec<u8>> {
    items.iter().map(|item| item.as_bytes().to_vec()).collect()
}

fn normal(name: &str) -> Component {
    Component::Normal(name.as_bytes().to_vec())
}

fn entry(path: &str) -> DirEntry {
    DirEntry {
        path: path.as_bytes().to_vec(),
        metadata: Err(FsError::UnknownError),
    }
}

fn child(path: &str) -> DirEntry {
    DirEntry {
        path: path.as_bytes().to_vec(),
        metadata: Ok(directory_metadata()),
    }
}

#[test]
fn components_are_normalized() {
    assert_eq!(
        normalize_path_components(b"/a/./b//../c/"),
        names(&["a", "b", "c"])
    );
    assert_eq!(normalize_path_components(b"a/b"), names(&["a", "b"]));
    assert_eq!(normalize_path_components(b""), names(&[]));
    assert_eq!(normalize_path_components(b"/"), names(&[]));
    assert_eq!(normalize_path_components(b"../.."), names(&[]));
    assert_eq!(
        normalize_path_components(b"/.../.hidden"),
        names(&["...", ".hidden"])
    );
    assert_eq!(
        normalize_path_components(&[0x2f, 0xff, 0x2f, 0x00]),
        vec![vec![0xff], vec![0x00]]
    );
}

#[test]
fn components_of_paths() {
    assert_eq!(
        components(b"/usr/../lib/./x/"),
        vec![
            Component::RootDir,
            normal("usr"),
            Component::ParentDir,
            normal("lib"),
            normal("x"),
        ]
    );
    assert_eq!(
        components(b"./a/."),
        vec![Component::CurDir, normal("a")]
    );
    assert_eq!(components(b"/."), vec![Component::RootDir]);
    assert_eq!(components(b""), vec![]);
}

#[test]
fn file_names() {
    assert_eq!(file_name(b"/usr/bin/"), Some(b"bin".to_vec()));
    assert_eq!(file_name(b"tmp/foo.txt/."), Some(b"foo.txt".to_vec()));
    assert_eq!(file_name(b"foo.txt/.."), None);
    assert_eq!(file_name(b"/"), None);
    assert_eq!(file_name(b"."), None);
    assert_eq!(file_name(b""), None);
}

#[test]
fn joined_paths() {
    assert_eq!(join(b"/etc", b"passwd"), b"/etc/passwd".to_vec());
    assert_eq!(join(b"/etc/", b"passwd"), b"/etc/passwd".to_vec());
    assert_eq!(join(b"/etc", b"/bin/sh"), b"/bin/sh".to_vec());
    assert_eq!(join(b"/etc", b""), b"/etc/".to_vec());
    assert_eq!(join(b"", b"a"), b"a".to_vec());
}

#[test]
fn collected_paths() {
    let parts = components(b"/a/../b");
    assert_eq!(collect_path(&parts, 0), b"/a/../b".to_vec());
    assert_eq!(collect_path(&parts, 1), b"a/../b".to_vec());
    assert_eq!(collect_path(&parts, 4), b"".to_vec());
    assert_eq!(collect_path(&parts, 9), b"".to_vec());
    assert_eq!(collect_path(&components(b"./x"), 0), b"./x".to_vec());
}

#[test]
fn absolute_paths_read_back() {
    let route = names(&["opt", "assets", "css"]);
    assert_eq!(absolute_path(&route, 0), b"/opt/assets/css".to_vec());
    assert_eq!(absolute_path(&route, 2), b"/css".to_vec());
    assert_eq!(absolute_path(&route, 3), b"/".to_vec());
    assert_eq!(
        normalize_path_components(&absolute_path(&route, 0)),
        route
    );
}

#[test]
fn routes_of_spliced_paths() {
    let mut whole = normalize_path_components(b"/a/b");
    whole.extend(normalize_path_components(b"../c/"));
    assert_eq!(normalize_path_components(b"/a/b/../c/"), whole);
}

#[test]
fn entries_are_rebased() {
    let mut listing = ReadDir::new(vec![
        entry("/data.txt"),
        entry("/css/site.css"),
        entry("relative/name"),
        entry("/a/../b"),
        entry("/"),
    ]);
    rebase_entries(&mut listing, b"/app/a");
    assert_eq!(
        listing.data,
        vec![
            entry("/app/a/data.txt"),
            entry("/app/a/css/site.css"),
            entry("/app/a/name"),
            entry("/app/a/a/../b"),
            entry("/app/a/"),
        ]
    );

    let mut at_root = ReadDir::new(vec![entry("/x"), entry("/")]);
    rebase_entries(&mut at_root, b"/");
    assert_eq!(at_root.data, vec![entry("/x"), entry("/")]);
}

#[test]
fn two_moves_are_one() {
    let mut listing = ReadDir::new(vec![entry("/x"), entry("/css/site.css")]);
    rebase_entries(&mut listing, b"/b");
    rebase_entries(&mut listing, b"/a");
    assert_eq!(
        listing.data,
        vec![entry("/a/b/x"), entry("/a/b/css/site.css")]
    );
}

#[test]
fn moves_agree_by_their_components() {
    let moved = |path: &[u8], prefix: &[u8]| {
        let mut listing = ReadDir::new(vec![DirEntry {
            path: path.to_vec(),
            metadata: Err(FsError::UnknownError),
        }]);
        rebase_entries(&mut listing, prefix);
        listing.data.remove(0).path
    };
    for entry in ["/", "//x/", "/a/../b/.", "/.."] {
        let entry = entry.as_bytes();
        assert_eq!(components(&moved(entry, b"/")), components(entry));
        for inner in ["/", "//p//", "/p/./q", "/../p"] {
            for outer in ["/", "/r/", "/./s"] {
                let (inner, outer) = (inner.as_bytes(), outer.as_bytes());
                assert_eq!(
                    components(&moved(&moved(entry, inner), outer)),
                    components(&moved(entry, &moved(inner, outer)))
                );
            }
        }
    }
    assert_eq!(moved(b"//x/", b"/p//"), b"/p//x".to_vec());
    assert_eq!(moved(b"/a/../b/.", b"/p"), b"/p/a/../b".to_vec());
}

#[test]
fn child_mounts_shadow_entries() {
    let base = ReadDir::new(vec![
        entry("/bin"),
        entry("/assets"),
        entry("/lib"),
        entry("/up/.."),
    ]);
    let listing = overlay_entries(base, b"/opt", &names(&["assets", "var"]));
    assert_eq!(
        listing.data,
        vec![
            entry("/opt/bin"),
            entry("/opt/lib"),
            entry("/opt/up/.."),
            child("/opt/assets"),
            child("/opt/var"),
        ]
    );
}

#[test]
fn an_entry_without_a_name_has_that_of_the_node() {
    let base = ReadDir::new(vec![entry("/")]);
    let listing = overlay_entries(base, b"/opt", &names(&["opt"]));
    assert_eq!(listing.data, vec![child("/opt/opt")]);
}

#[test]
fn metadata_of_a_branch() {
    let expected = Metadata {
        ft: FileType {
            dir: true,
            file: false,
            symlink: false,
            char_device: false,
            block_device: false,
            socket: false,
            fifo: false,
        },
        accessed: 0,
        created: 0,
        modified: 0,
        len: 0,
    };
    assert_eq!(directory_metadata(), expected);
    assert!(expected.is_dir());
    assert!(!expected.is_file());
    assert_eq!(FileType::new_dir(), expected.ft);
}
