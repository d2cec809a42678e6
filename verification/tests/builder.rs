use ango::angofile::AngoContext;
use ango::angofile::LinkMap;
use ango::angofile::LinkType;
use ango::angofile::ObjectSet;
use ango::commands::record_object;
use ango::commands::FsTree;
use ango::commands::LinkResult;
use ango::entries::encode_entry_list;
use ango::entries::escape_str;
use ango::entries::sort_entries;
use ango::entries::Entry;
use ango::hashing::digest;
use ango::hashing::digest_str;
use ango::order::str_eq;
use ango::order::str_le;
use ango::order::str_lt;

fn empty_context() -> AngoContext {
    AngoContext {
        objects: ObjectSet::new(),
        links: LinkMap::new(),
        ango_path: String::from("/store"),
    }
}

fn file(contents: &[u8]) -> FsTree {
    FsTree::File { contents: contents.to_vec() }
}

fn dir(children: Vec<(&str, FsTree)>) -> FsTree {
    FsTree::Dir {
        children: children.into_iter().map(|(n, t)| (n.to_string(), t)).collect(),
    }
}

fn expected_dir_text() -> String {
    format!(
        "[[entries]]\nname = \"x\"\nty = \"File\"\nhash = \"{}\"\n[[entries]]\nname = \"y\"\nty = \"File\"\nhash = \"{}\"\n",
        digest(b"A"),
        digest(b"B"),
    )
}

#[test]
fn file_ingest_plans_one_blob() {
    let mut ctx = empty_context();
    let tree = file(b"hello");
    let (hash, outcome, plan) = ango::commands::add(&tree, String::from("a.txt"), &mut ctx);
    assert_eq!(outcome, LinkResult::Added);
    assert_eq!(hash.ty, LinkType::File);
    assert_eq!(hash.hash, digest(b"hello"));
    assert_eq!(plan.len(), 1);
    assert_eq!(plan[0].hash, digest(b"hello"));
    assert_eq!(plan[0].contents, b"hello".to_vec());
    let bound = ctx.links.get(&String::from("a.txt")).unwrap();
    assert_eq!(bound.ty, LinkType::File);
    assert_eq!(bound.hash, digest(b"hello"));
}

#[test]
fn identical_content_shares_one_object() {
    let mut ctx = empty_context();
    let (_, _, plan) = ango::commands::add(&file(b"hello"), String::from("a.txt"), &mut ctx);
    for blob in &plan {
        record_object(blob.hash.clone(), &mut ctx);
    }
    assert_eq!(ctx.objects.len(), 1);
    let (hash2, outcome2, plan2) = ango::commands::add(&file(b"hello"), String::from("b.txt"), &mut ctx);
    assert_eq!(outcome2, LinkResult::Added);
    assert_eq!(plan2.len(), 0);
    assert_eq!(ctx.objects.len(), 1);
    assert_eq!(hash2.hash, digest(b"hello"));
    assert_eq!(ctx.links.get(&String::from("b.txt")).unwrap().hash, digest(b"hello"));
    assert_eq!(ctx.links.len(), 2);
}

#[test]
fn directory_ingest_plans_children_then_folder() {
    let mut ctx = empty_context();
    let tree = dir(vec![("x", file(b"A")), ("y", file(b"B"))]);
    let (hash, outcome, plan) = ango::commands::add(&tree, String::from("dir"), &mut ctx);
    assert_eq!(outcome, LinkResult::Added);
    assert_eq!(hash.ty, LinkType::Folder);
    let text = expected_dir_text();
    assert_eq!(hash.hash, digest_str(&text));
    assert_eq!(plan.len(), 3);
    assert_eq!(plan[0].hash, digest(b"A"));
    assert_eq!(plan[0].contents, b"A".to_vec());
    assert_eq!(plan[1].hash, digest(b"B"));
    assert_eq!(plan[1].contents, b"B".to_vec());
    assert_eq!(plan[2].hash, digest_str(&text));
    assert_eq!(plan[2].contents, text.as_bytes().to_vec());
    let bound = ctx.links.get(&String::from("dir")).unwrap();
    assert_eq!(bound.ty, LinkType::Folder);
    assert_eq!(bound.hash, digest_str(&text));
}

#[test]
fn folder_digest_ignores_enumeration_order() {
    let mut ctx1 = empty_context();
    let t1 = dir(vec![("x", file(b"A")), ("y", file(b"B"))]);
    let (h1, _, _) = ango::commands::add(&t1, String::from("dir"), &mut ctx1);
    let mut ctx2 = empty_context();
    let t2 = dir(vec![("y", file(b"B")), ("x", file(b"A"))]);
    let (h2, _, _) = ango::commands::add(&t2, String::from("dir"), &mut ctx2);
    assert_eq!(h1.hash, h2.hash);
    assert_eq!(h1.ty, h2.ty);
}

#[test]
fn reingesting_a_directory_plans_nothing() {
    let mut ctx = empty_context();
    let tree = dir(vec![("x", file(b"A")), ("y", file(b"B"))]);
    let (_, outcome1, plan1) = ango::commands::add(&tree, String::from("dir"), &mut ctx);
    assert_eq!(outcome1, LinkResult::Added);
    assert_eq!(plan1.len(), 3);
    for blob in &plan1 {
        record_object(blob.hash.clone(), &mut ctx);
    }
    assert_eq!(ctx.objects.len(), 3);
    let (_, outcome2, plan2) = ango::commands::add(&tree, String::from("dir"), &mut ctx);
    assert_eq!(outcome2, LinkResult::AlreadyExists);
    assert_eq!(plan2.len(), 0);
    assert_eq!(ctx.objects.len(), 3);
}

#[test]
fn nested_directories_hash_bottom_up() {
    let mut ctx = empty_context();
    let inner = dir(vec![("f", file(b"data"))]);
    let tree = dir(vec![("sub", inner)]);
    let (hash, _, plan) = ango::commands::add(&tree, String::from("root"), &mut ctx);
    assert_eq!(plan.len(), 3);
    assert_eq!(plan[0].hash, digest(b"data"));
    let inner_text = format!(
        "[[entries]]\nname = \"f\"\nty = \"File\"\nhash = \"{}\"\n",
        digest(b"data"),
    );
    assert_eq!(plan[1].hash, digest_str(&inner_text));
    let outer_text = format!(
        "[[entries]]\nname = \"sub\"\nty = \"Folder\"\nhash = \"{}\"\n",
        digest_str(&inner_text),
    );
    assert_eq!(plan[2].hash, digest_str(&outer_text));
    assert_eq!(hash.hash, digest_str(&outer_text));
    assert_eq!(hash.ty, LinkType::Folder);
}

#[test]
fn empty_directory_has_an_object() {
    let mut ctx = empty_context();
    let tree = dir(vec![]);
    let (hash, _, plan) = ango::commands::add(&tree, String::from("empty"), &mut ctx);
    assert_eq!(plan.len(), 1);
    assert_eq!(plan[0].contents, Vec::<u8>::new());
    assert_eq!(hash.hash, digest(b""));
    assert_eq!(hash.ty, LinkType::Folder);
}

#[test]
fn shared_subfile_across_directories_written_once() {
    let mut ctx = empty_context();
    let t1 = dir(vec![("a", file(b"shared")), ("b", file(b"one"))]);
    let (_, _, plan1) = ango::commands::add(&t1, String::from("d1"), &mut ctx);
    for blob in &plan1 {
        record_object(blob.hash.clone(), &mut ctx);
    }
    let t2 = dir(vec![("c", file(b"shared")), ("d", file(b"two"))]);
    let (_, _, plan2) = ango::commands::add(&t2, String::from("d2"), &mut ctx);
    let shared = digest(b"shared");
    assert!(plan1.iter().filter(|b| b.hash == shared).count() == 1);
    assert!(plan2.iter().filter(|b| b.hash == shared).count() == 0);
}

#[test]
fn duplicate_content_in_one_directory_planned_once() {
    let mut ctx = empty_context();
    let tree = dir(vec![("a", file(b"same")), ("b", file(b"same"))]);
    let (_, _, plan) = ango::commands::add(&tree, String::from("dir"), &mut ctx);
    assert_eq!(plan.len(), 2);
    assert_eq!(plan[0].hash, digest(b"same"));
    assert_ne!(plan[1].hash, digest(b"same"));
}

#[test]
fn entry_list_text_is_exact() {
    let entries = vec![
        Entry { name: String::from("x"), ty: LinkType::File, hash: digest(b"A") },
        Entry { name: String::from("y"), ty: LinkType::File, hash: digest(b"B") },
    ];
    assert_eq!(encode_entry_list(&entries), expected_dir_text());
}

#[test]
fn entry_list_is_valid_toml() {
    let entries = vec![
        Entry { name: String::from("x"), ty: LinkType::File, hash: String::from("H1") },
        Entry { name: String::from("with \"quote\""), ty: LinkType::Folder, hash: String::from("H2") },
    ];
    let text = encode_entry_list(&entries);
    let table: toml::Table = toml::from_str(&text).unwrap();
    let list = table["entries"].as_array().unwrap();
    assert_eq!(list.len(), 2);
    assert_eq!(list[0]["name"].as_str().unwrap(), "x");
    assert_eq!(list[0]["ty"].as_str().unwrap(), "File");
    assert_eq!(list[0]["hash"].as_str().unwrap(), "H1");
    assert_eq!(list[1]["name"].as_str().unwrap(), "with \"quote\"");
    assert_eq!(list[1]["ty"].as_str().unwrap(), "Folder");
}

#[test]
fn escape_handles_quotes_and_backslashes() {
    assert_eq!(escape_str("plain"), "plain");
    assert_eq!(escape_str("a\"b"), "a\\\"b");
    assert_eq!(escape_str("a\\b"), "a\\\\b");
    assert_eq!(escape_str(""), "");
}

#[test]
fn sort_entries_orders_by_name() {
    let entries = vec![
        Entry { name: String::from("zeta"), ty: LinkType::File, hash: String::from("1") },
        Entry { name: String::from("alpha"), ty: LinkType::File, hash: String::from("2") },
        Entry { name: String::from("mid"), ty: LinkType::File, hash: String::from("3") },
    ];
    let sorted = sort_entries(&entries);
    assert_eq!(sorted[0].name, "alpha");
    assert_eq!(sorted[1].name, "mid");
    assert_eq!(sorted[2].name, "zeta");
}

#[test]
fn string_order_helpers() {
    assert!(str_le("a", "b"));
    assert!(str_le("a", "a"));
    assert!(!str_le("b", "a"));
    assert!(str_le("a", "ab"));
    assert!(str_lt("a", "b"));
    assert!(!str_lt("a", "a"));
    assert!(str_eq("abc", "abc"));
    assert!(!str_eq("abc", "abd"));
}

#[test]
fn deep_reordering_keeps_the_root_digest() {
    let mut ctx1 = empty_context();
    let t1 = dir(vec![
        ("s", dir(vec![("p", file(b"1")), ("q", file(b"2"))])),
        ("t", file(b"3")),
    ]);
    let (h1, _, _) = ango::commands::add(&t1, String::from("root"), &mut ctx1);
    let mut ctx2 = empty_context();
    let t2 = dir(vec![
        ("t", file(b"3")),
        ("s", dir(vec![("q", file(b"2")), ("p", file(b"1"))])),
    ]);
    let (h2, _, _) = ango::commands::add(&t2, String::from("root"), &mut ctx2);
    assert_eq!(h1.hash, h2.hash);
    assert_eq!(h1.ty, h2.ty);
}

#[test]
fn interrupted_writes_leave_a_consistent_store() {
    let mut ctx = empty_context();
    let tree = dir(vec![("x", file(b"A")), ("y", file(b"B"))]);
    let (_, _, plan) = ango::commands::add(&tree, String::from("dir"), &mut ctx);
    assert_eq!(plan.len(), 3);
    // pretend the third write failed: only the first two blobs are recorded
    record_object(plan[0].hash.clone(), &mut ctx);
    record_object(plan[1].hash.clone(), &mut ctx);
    assert_eq!(ctx.objects.len(), 2);
    // a later ingest owes exactly the missing folder object
    let mut ctx2 = ctx;
    let (hash, _, retry) = ango::commands::add(&tree, String::from("dir2"), &mut ctx2);
    assert_eq!(retry.len(), 1);
    assert_eq!(retry[0].hash, hash.hash);
}

#[test]
fn non_ascii_names_round_trip_through_the_entry_list() {
    let entries = vec![
        Entry { name: String::from("caf\u{e9}"), ty: LinkType::File, hash: String::from("H1") },
        Entry { name: String::from("\u{540d}\u{524d} \"x\""), ty: LinkType::File, hash: String::from("H2") },
    ];
    let text = encode_entry_list(&entries);
    let table: toml::Table = toml::from_str(&text).unwrap();
    let list = table["entries"].as_array().unwrap();
    assert_eq!(list[0]["name"].as_str().unwrap(), "caf\u{e9}");
    assert_eq!(list[1]["name"].as_str().unwrap(), "\u{540d}\u{524d} \"x\"");

    let mut ctx1 = empty_context();
    let t1 = dir(vec![("caf\u{e9}", file(b"c")), ("b", file(b"d"))]);
    let (h1, _, _) = ango::commands::add(&t1, String::from("u"), &mut ctx1);
    let mut ctx2 = empty_context();
    let t2 = dir(vec![("b", file(b"d")), ("caf\u{e9}", file(b"c"))]);
    let (h2, _, _) = ango::commands::add(&t2, String::from("u"), &mut ctx2);
    assert_eq!(h1.hash, h2.hash);
}
