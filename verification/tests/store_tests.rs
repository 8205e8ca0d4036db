use rust_git::hash::{hash_object, to_hex};
use rust_git::{object_location, ObjectStore, RepoError, Repository};

const EMPTY_ID: &str = "e3b0c44298fc1c149afbf4c8996fb92427ae41e4649b934ca495991b7852b855";
const ABC_ID: &str = "ba7816bf8f01cfea414140de5dae2223b00361a396177a9cb410ff61f20015ad";

#[test]
fn id_is_the_sha256_digest_in_hexadecimal() {
    assert_eq!(hash_object(b""), EMPTY_ID);
    assert_eq!(hash_object(b"abc"), ABC_ID);
    let repo = Repository::new();
    assert_eq!(repo.hash_object(b"abc"), ABC_ID);
}

#[test]
fn hexadecimal_has_two_lower_case_digits_for_each_byte() {
    assert_eq!(to_hex(&[]), "");
    assert_eq!(to_hex(&[0x00, 0x0f, 0xa0, 0xff, 0x9c]), "000fa0ff9c");
}

#[test]
fn storing_the_same_bytes_twice_gives_one_object() {
    let mut repo = Repository::new();
    let first = repo.write_object(b"hello");
    let second = repo.write_object(b"hello");
    assert_eq!(first, second);
    assert_eq!(repo.objects().len(), 1);
    assert_eq!(repo.read_object(&first), Ok(b"hello".to_vec()));
}

#[test]
fn different_bytes_are_stored_under_different_ids() {
    let mut repo = Repository::new();
    let a = repo.write_object(b"hello");
    let b = repo.write_object(b"hello ");
    assert_ne!(a, b);
    assert_eq!(repo.objects().len(), 2);
    assert_eq!(repo.read_object(&a), Ok(b"hello".to_vec()));
    assert_eq!(repo.read_object(&b), Ok(b"hello ".to_vec()));
}

#[test]
fn reading_an_unknown_id_is_not_found() {
    let mut repo = Repository::new();
    repo.write_object(b"abc");
    assert_eq!(repo.read_object(EMPTY_ID), Err(RepoError::NotFound));
    assert_eq!(repo.read_object(""), Err(RepoError::NotFound));
    assert_eq!(repo.read_object(ABC_ID), Ok(b"abc".to_vec()));
}

#[test]
fn store_lists_its_objects_in_the_order_of_writing() {
    let mut store = ObjectStore::new();
    assert_eq!(store.len(), 0);
    let a = store.write(b"abc");
    let e = store.write(b"");
    store.write(b"abc");
    assert_eq!(store.len(), 2);
    assert_eq!(store.id_at(0), &a);
    assert_eq!(store.id_at(1), &e);
    assert_eq!(store.bytes_at(0), &b"abc".to_vec());
    assert_eq!(store.bytes_at(1), &Vec::<u8>::new());
    assert_eq!(store.read(ABC_ID), Some(&b"abc".to_vec()));
    assert_eq!(store.read("abc"), None);
}

#[test]
fn insert_replaces_what_was_under_the_id() {
    let mut store = ObjectStore::new();
    store.insert("k".to_string(), vec![1, 2]);
    store.insert("k".to_string(), vec![3]);
    assert_eq!(store.len(), 1);
    assert_eq!(store.read("k"), Some(&vec![3u8]));
}

#[test]
fn object_lies_in_the_directory_of_its_first_two_characters() {
    assert_eq!(
        object_location(ABC_ID),
        Some((
            "ba".to_string(),
            "7816bf8f01cfea414140de5dae2223b00361a396177a9cb410ff61f20015ad".to_string()
        ))
    );
    assert_eq!(object_location("ab"), Some(("ab".to_string(), "".to_string())));
    assert_eq!(object_location("a"), None);
    assert_eq!(object_location(""), None);
}
