use ango::angofile::AngoContext;
use ango::angofile::LinkMap;
use ango::angofile::LinkType;
use ango::angofile::ObjectSet;
use ango::angofile::TypedHash;
use ango::commands::add_link;
use ango::commands::add_object;
use ango::commands::record_object;
use ango::commands::LinkResult;
use ango::hashing::digest;

fn empty_context() -> AngoContext {
    AngoContext {
        objects: ObjectSet::new(),
        links: LinkMap::new(),
        ango_path: String::from("/store"),
    }
}

#[test]
fn object_set_insert_and_contains() {
    let mut s = ObjectSet::new();
    assert_eq!(s.len(), 0);
    assert!(!s.contains(&String::from("k")));
    s.insert(String::from("k"));
    assert!(s.contains(&String::from("k")));
    assert_eq!(s.len(), 1);
    s.insert(String::from("k"));
    assert_eq!(s.len(), 1);
    s.insert(String::from("m"));
    assert_eq!(s.len(), 2);
}

#[test]
fn add_object_dedups_content() {
    let mut ctx = empty_context();
    let (h1, fresh1) = add_object(b"hello", &mut ctx);
    assert!(fresh1);
    assert_eq!(h1, digest(b"hello"));
    assert_eq!(ctx.objects.len(), 1);
    let (h2, fresh2) = add_object(b"hello", &mut ctx);
    assert!(!fresh2);
    assert_eq!(h1, h2);
    assert_eq!(ctx.objects.len(), 1);
}

#[test]
fn record_object_is_idempotent() {
    let mut ctx = empty_context();
    record_object(String::from("abc"), &mut ctx);
    assert_eq!(ctx.objects.len(), 1);
    record_object(String::from("abc"), &mut ctx);
    assert_eq!(ctx.objects.len(), 1);
    record_object(String::from("abd"), &mut ctx);
    assert_eq!(ctx.objects.len(), 2);
}

#[test]
fn binding_is_non_destructive() {
    let mut ctx = empty_context();
    let first = TypedHash::file(String::from("AAAA"));
    let second = TypedHash::folder(String::from("BBBB"));
    let r1 = add_link(String::from("name"), first, &mut ctx);
    assert_eq!(r1, LinkResult::Added);
    let r2 = add_link(String::from("name"), second, &mut ctx);
    assert_eq!(r2, LinkResult::AlreadyExists);
    let bound = ctx.links.get(&String::from("name")).unwrap();
    assert_eq!(bound.ty, LinkType::File);
    assert_eq!(bound.hash, "AAAA");
    assert_eq!(ctx.links.len(), 1);
}

#[test]
fn link_map_lookup() {
    let mut m = LinkMap::new();
    assert!(!m.contains_key(&String::from("a")));
    assert!(m.get(&String::from("a")).is_none());
    m.insert_new(String::from("a"), TypedHash::file(String::from("H1")));
    assert!(m.contains_key(&String::from("a")));
    assert_eq!(m.get(&String::from("a")).unwrap().hash, "H1");
    assert_eq!(m.len(), 1);
}

#[test]
fn data_path_joins_store_root() {
    let ctx = empty_context();
    assert_eq!(ctx.data_path(), "/store/data");
}

#[test]
fn typed_hash_constructors() {
    let f = TypedHash::file(String::from("X"));
    assert_eq!(f.ty, LinkType::File);
    assert_eq!(f.hash, "X");
    let d = TypedHash::folder(String::from("Y"));
    assert_eq!(d.ty, LinkType::Folder);
    assert_eq!(d.hash, "Y");
}

#[test]
fn context_items_walk() {
    let mut ctx = empty_context();
    record_object(String::from("h1"), &mut ctx);
    record_object(String::from("h2"), &mut ctx);
    add_link(String::from("n"), TypedHash::file(String::from("h1")), &mut ctx);
    let objects: Vec<String> = ctx.objects.items().clone();
    assert_eq!(objects.len(), 2);
    assert!(objects.contains(&String::from("h1")));
    assert!(objects.contains(&String::from("h2")));
    let links = ctx.links.items();
    assert_eq!(links.len(), 1);
    assert_eq!(links[0].0, "n");
    assert_eq!(links[0].1.hash, "h1");
}
