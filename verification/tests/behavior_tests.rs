use outline_toc::commands::{app_info, check_icon_url, greet, get_port, icon_file_name, icon_glob_pattern};
use outline_toc::encoding::JSONNode;
use outline_toc::error::TocError;
use outline_toc::server::{socket_step, WsAction, WsEvent};
use outline_toc::toc::{TocRoot, TreeNodeMeta};

#[test]
fn insert_then_remove_restores_shape() {
    let mut toc = TocRoot::new();
    let a = toc.add("a", (0, 5), None).unwrap();
    let b = toc.add("b", (5, 9), Some(a)).unwrap();
    let fresh = toc.add("tmp", (9, 12), Some(a)).unwrap();
    toc.remove(fresh);
    assert_eq!(toc.root_ids().len(), 1);
    assert_eq!(toc.root_ids()[0], a);
    assert_eq!(toc.get(a).unwrap().children.len(), 1);
    assert_eq!(toc.get(a).unwrap().children[0], b);
    assert!(!toc.contains(fresh));
}

#[test]
fn move_up_then_down_restores_order() {
    let mut toc = TocRoot::new();
    let a = toc.add("a", (0, 0), None).unwrap();
    let b = toc.add("b", (0, 0), None).unwrap();
    toc.move_up(b);
    toc.move_down(b);
    assert_eq!(toc.root_ids()[0], a);
    assert_eq!(toc.root_ids()[1], b);
    toc.move_down(a);
    toc.move_up(a);
    assert_eq!(toc.root_ids()[0], a);
    assert_eq!(toc.root_ids()[1], b);
}

#[test]
fn boundary_moves_are_no_ops() {
    let mut toc = TocRoot::new();
    let a = toc.add("a", (0, 0), None).unwrap();
    let b = toc.add("b", (0, 0), None).unwrap();
    toc.move_up(a);
    assert_eq!(toc.root_ids()[0], a);
    assert_eq!(toc.root_ids()[1], b);
    toc.move_down(b);
    assert_eq!(toc.root_ids()[0], a);
    assert_eq!(toc.root_ids()[1], b);
    toc.move_left(a);
    assert_eq!(toc.root_ids().len(), 2);
    assert_eq!(toc.get(a).unwrap().parent, None);
    toc.move_right(a);
    assert_eq!(toc.root_ids().len(), 2);
    assert_eq!(toc.root_ids()[0], a);
}

#[test]
fn reparent_updates_both_sides() {
    let mut toc = TocRoot::new();
    let p = toc.add("p", (0, 0), None).unwrap();
    let q = toc.add("q", (0, 0), None).unwrap();
    let c = toc.add("c", (0, 0), Some(q)).unwrap();
    toc.move_belong_to(c, p);
    assert_eq!(toc.get(q).unwrap().children.len(), 0);
    assert_eq!(toc.get(p).unwrap().children.len(), 1);
    assert_eq!(toc.get(p).unwrap().children[0], c);
    assert_eq!(toc.get(c).unwrap().parent, Some(p));
}

#[test]
fn reparent_to_same_parent_moves_to_end() {
    let mut toc = TocRoot::new();
    let p = toc.add("p", (0, 0), None).unwrap();
    let c1 = toc.add("c1", (0, 0), Some(p)).unwrap();
    let c2 = toc.add("c2", (0, 0), Some(p)).unwrap();
    toc.move_belong_to(c1, p);
    assert_eq!(toc.get(p).unwrap().children, vec![c2, c1]);
}

#[test]
fn reparent_below_own_subtree_is_rejected() {
    let mut toc = TocRoot::new();
    let a = toc.add("a", (0, 0), None).unwrap();
    let b = toc.add("b", (0, 0), Some(a)).unwrap();
    let c = toc.add("c", (0, 0), Some(b)).unwrap();
    toc.move_belong_to(a, c);
    assert_eq!(toc.root_ids(), &vec![a]);
    assert_eq!(toc.get(a).unwrap().parent, None);
    assert_eq!(toc.get(c).unwrap().children.len(), 0);
    toc.move_before(a, a);
    assert_eq!(toc.root_ids(), &vec![a]);
    toc.move_after(a, c);
    assert_eq!(toc.root_ids(), &vec![a]);
}

#[test]
fn move_after_within_one_list_uses_post_detach_positions() {
    let mut toc = TocRoot::new();
    let a = toc.add("a", (0, 0), None).unwrap();
    let b = toc.add("b", (0, 0), None).unwrap();
    let c = toc.add("c", (0, 0), None).unwrap();
    toc.move_after(a, c);
    assert_eq!(toc.root_ids(), &vec![b, c, a]);
    toc.move_before(c, b);
    assert_eq!(toc.root_ids(), &vec![c, b, a]);
}

#[test]
fn cascading_removal_leaves_no_descendant() {
    let mut toc = TocRoot::new();
    let keep = toc.add("keep", (0, 0), None).unwrap();
    let a = toc.add("a", (0, 0), None).unwrap();
    let b = toc.add("b", (0, 0), Some(a)).unwrap();
    let c = toc.add("c", (0, 0), Some(b)).unwrap();
    let d = toc.add("d", (0, 0), Some(a)).unwrap();
    toc.remove(a);
    assert!(!toc.contains(a));
    assert!(!toc.contains(b));
    assert!(!toc.contains(c));
    assert!(!toc.contains(d));
    assert!(toc.get(b).is_none());
    assert!(toc.contains(keep));
    assert_eq!(toc.root_ids(), &vec![keep]);
}

#[test]
fn add_under_dead_parent_fails() {
    let mut toc = TocRoot::new();
    let r = toc.add("x", (0, 0), Some(77));
    match r {
        Err(TocError::NodeParentNotFound(p)) => assert_eq!(p, 77),
        _ => panic!("expected the parent-not-found error"),
    }
    assert_eq!(toc.root_ids().len(), 0);
}

#[test]
fn removed_ids_are_recycled() {
    let mut toc = TocRoot::new();
    let a = toc.add("a", (0, 0), None).unwrap();
    toc.remove(a);
    let b = toc.add("b", (0, 0), None).unwrap();
    assert_eq!(a, b);
}

#[test]
fn dump_escapes_strings_and_nests_children() {
    let mut toc = TocRoot::new();
    let a = toc
        .add_with_meta(
            "a\"b\\c\n",
            Some(TreeNodeMeta {
                words: 7,
                range: (3, 9),
            }),
            None,
        )
        .unwrap();
    let b = toc.add("inner", (4, 5), Some(a)).unwrap();
    toc.set_patch(b, Some(String::from("+line")));
    let buf = toc.dump().unwrap();
    assert_eq!(
        buf,
        "[{\"id\":0,\"title\":\"a\\\"b\\\\c\\n\",\"patch\":null,\"meta\":{\"words\":7,\"range\":[3,9]},\"children\":[{\"id\":1,\"title\":\"inner\",\"patch\":\"+line\",\"meta\":{\"words\":0,\"range\":[4,5]},\"children\":[]}]}]"
    );
}

#[test]
fn dump_prints_large_counts_in_decimal() {
    let mut toc = TocRoot::new();
    let a = toc.add("n", (0, 0), None).unwrap();
    toc.set_meta(
        a,
        TreeNodeMeta {
            words: 340282366920938463463374607431768211455,
            range: (10, 1000000000000),
        },
    );
    let buf = toc.dump().unwrap();
    assert_eq!(
        buf,
        "[{\"id\":0,\"title\":\"n\",\"patch\":null,\"meta\":{\"words\":340282366920938463463374607431768211455,\"range\":[10,1000000000000]},\"children\":[]}]"
    );
}

#[test]
fn set_patch_and_set_meta_edit_in_place() {
    let mut toc = TocRoot::new();
    let a = toc.add("a", (0, 0), None).unwrap();
    toc.set_patch(a, Some(String::from("@@ -1 +1 @@")));
    toc.set_meta(
        a,
        TreeNodeMeta {
            words: 42,
            range: (1, 2),
        },
    );
    let n = toc.get(a).unwrap();
    assert_eq!(n.patch, Some(String::from("@@ -1 +1 @@")));
    assert_eq!(n.meta.words, 42);
    assert_eq!(n.meta.range, (1, 2));
    assert_eq!(n.title, "a");
}

#[test]
fn greet_formats_the_name() {
    assert_eq!(greet("Anna"), "Hello, Anna! You've been greeted from Rust!");
}

#[test]
fn get_port_is_identity() {
    assert_eq!(get_port(8080), 8080);
}

#[test]
fn app_info_formats_version_and_defaults() {
    let info = app_info(
        String::from("ctalk"),
        1,
        12,
        3,
        "someone",
        "an outline editor",
        None,
    );
    assert_eq!(info.name, "ctalk");
    assert_eq!(info.version, "1.12.3");
    assert_eq!(info.authors, "someone");
    assert_eq!(info.description, "an outline editor");
    assert_eq!(info.webview_version, "unknown");
    let with = app_info(
        String::from("ctalk"),
        0,
        1,
        0,
        "someone",
        "an outline editor",
        Some(String::from("2.44")),
    );
    assert_eq!(with.version, "0.1.0");
    assert_eq!(with.webview_version, "2.44");
}

#[test]
fn icon_cache_names_use_the_content_digest() {
    assert_eq!(
        icon_glob_pattern("abc"),
        "ba7816bf8f01cfea414140de5dae2223b00361a396177a9cb410ff61f20015ad.*"
    );
    let name = icon_file_name("abc", "image/png").unwrap();
    assert_eq!(
        name,
        "ba7816bf8f01cfea414140de5dae2223b00361a396177a9cb410ff61f20015ad.png"
    );
    match icon_file_name("abc", "not/a-mime") {
        Err(TocError::Other(msg)) => {
            assert_eq!(msg, "Failed to get extensions from content type")
        },
        _ => panic!("expected the extension lookup to fail"),
    }
}

#[test]
fn icon_url_is_validated() {
    assert!(check_icon_url("https://example.com/icon.png").is_ok());
    match check_icon_url("not a url") {
        Err(TocError::Other(msg)) => assert_eq!(msg, "Failed to parse icon URL"),
        _ => panic!("expected the URL check to fail"),
    }
}

#[test]
fn socket_steps_echo_and_stop() {
    match socket_step(WsEvent::Text(String::from("hi"))) {
        WsAction::Reply(s) => assert_eq!(s, "Echo from backend: hi"),
        _ => panic!("expected an echo reply"),
    }
    assert!(matches!(socket_step(WsEvent::Close), WsAction::Stop));
    assert!(matches!(socket_step(WsEvent::Failed), WsAction::Stop));
    assert!(matches!(socket_step(WsEvent::Other), WsAction::Ignore));
}

#[test]
fn load_rebuilds_from_external_form() {
    let jr = vec![
        JSONNode {
            id: 99,
            title: String::from("a"),
            patch: None,
            meta: TreeNodeMeta {
                words: 1,
                range: (0, 2),
            },
            children: vec![JSONNode {
                id: 98,
                title: String::from("b"),
                patch: Some(String::from("+x")),
                meta: TreeNodeMeta {
                    words: 0,
                    range: (1, 2),
                },
                children: vec![],
            }],
        },
        JSONNode {
            id: 97,
            title: String::from("c"),
            patch: None,
            meta: TreeNodeMeta {
                words: 2,
                range: (2, 3),
            },
            children: vec![],
        },
    ];
    let t = TocRoot::load(&jr);
    assert_eq!(
        t.dump().unwrap(),
        "[{\"id\":0,\"title\":\"a\",\"patch\":null,\"meta\":{\"words\":1,\"range\":[0,2]},\"children\":[{\"id\":1,\"title\":\"b\",\"patch\":\"+x\",\"meta\":{\"words\":0,\"range\":[1,2]},\"children\":[]}]},{\"id\":2,\"title\":\"c\",\"patch\":null,\"meta\":{\"words\":2,\"range\":[2,3]},\"children\":[]}]"
    );
    let again = TocRoot::load(&t.to_json());
    assert_eq!(again.dump().unwrap(), t.dump().unwrap());
}

#[test]
fn empty_tree_dumps_and_tolerates_stale_ids() {
    let mut toc = TocRoot::new();
    assert_eq!(toc.dump().unwrap(), "[]");
    assert!(!toc.contains(0));
    assert!(toc.get(3).is_none());
    toc.remove(5);
    toc.move_up(1);
    toc.move_down(2);
    toc.move_left(3);
    toc.move_right(4);
    toc.move_before(0, 1);
    toc.move_after(1, 0);
    toc.move_belong_to(2, 3);
    toc.set_title(9, "ghost");
    assert_eq!(toc.dump().unwrap(), "[]");
    assert_eq!(toc.root_ids().len(), 0);
}
