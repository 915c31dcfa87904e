use sledlite::engine::EngineError;
use sledlite::shard::shard_dir;
use sledlite::shard::shard_of;
use sledlite::shard::ShardManager;

#[derive(Debug)]
pub struct Animal {
    color: String,
    has_claw: bool,
}

fn animal_bytes(animal: &Animal) -> Vec<u8> {
    let mut map = serde_json::Map::new();
    map.insert(String::from("color"), serde_json::Value::String(animal.color.clone()));
    map.insert(String::from("has_claw"), serde_json::Value::Bool(animal.has_claw));
    serde_json::to_vec(&serde_json::Value::Object(map)).expect("serialize into vec failed")
}

fn animal_of(bytes: &[u8]) -> Option<Animal> {
    let value: serde_json::Value = serde_json::from_slice(bytes).ok()?;
    Some(Animal {
        color: value.get("color")?.as_str()?.to_string(),
        has_claw: value.get("has_claw")?.as_bool()?,
    })
}

fn dirs_of(manager: &ShardManager) -> Vec<Vec<(Vec<u8>, Vec<u8>)>> {
    (0..manager.shard_count()).map(|i| manager.shard_files(i)).collect()
}

#[test]
pub fn another_test_shard() {
    let mut written = ShardManager::new(10, 100, Vec::new()).expect("error opening shard manager");
    for i in 0..100 {
        let key = format!("key-{i}");
        let value = animal_bytes(&Animal { color: format!("red-{i}"), has_claw: true });
        let _ = written.put(key.as_bytes(), &value);
    }
    let shard_manager =
        ShardManager::new(10, 100, dirs_of(&written)).expect("error opening shard manager");
    let val = shard_manager
        .get(b"key-90")
        .expect("error fetching hte vlaue")
        .expect("at leaset some value");
    let val_des: Animal = animal_of(&val).expect("des failed of the fetched vlakue ");
    println!("val des is {val_des:?}");
    assert_eq!(val_des.color, "red-90");
    assert!(val_des.has_claw);
}

#[test]
fn keys_are_routed_by_their_first_byte() {
    let manager = ShardManager::new(10, 100, Vec::new()).unwrap();
    assert_eq!(manager.shard_count(), 10);
    assert_eq!(manager.shard_key(b""), None);
    assert_eq!(manager.shard_key(&[0]), Some(0));
    assert_eq!(manager.shard_key(&[24, 255]), Some(0));
    assert_eq!(manager.shard_key(&[25]), Some(1));
    assert_eq!(manager.shard_key(b"key-90"), Some(4));
    assert_eq!(manager.shard_key(&[224]), Some(8));
    assert_eq!(manager.shard_key(&[225]), Some(9));
    assert_eq!(manager.shard_key(&[249]), Some(9));
    assert_eq!(manager.shard_key(&[250]), Some(9));
    assert_eq!(manager.shard_key(&[255]), Some(9));
}

#[test]
fn one_shard_holds_everything() {
    let manager = ShardManager::new(1, 100, Vec::new()).unwrap();
    assert_eq!(manager.shard_key(&[0]), Some(0));
    assert_eq!(manager.shard_key(&[255]), Some(0));
}

#[test]
fn more_shards_than_bytes_route_to_the_last() {
    let manager = ShardManager::new(300, 100, Vec::new()).unwrap();
    assert_eq!(manager.shard_key(&[0]), Some(299));
    assert_eq!(manager.shard_key(&[255]), Some(299));
}

#[test]
fn each_byte_has_its_own_shard_when_there_are_256() {
    let manager = ShardManager::new(256, 100, Vec::new()).unwrap();
    assert_eq!(manager.shard_key(&[0]), Some(0));
    assert_eq!(manager.shard_key(&[100]), Some(100));
    assert_eq!(manager.shard_key(&[255]), Some(255));
}

#[test]
fn put_and_get_go_to_one_shard() {
    let mut manager = ShardManager::new(4, 1 << 20, Vec::new()).unwrap();
    assert_eq!(manager.put(b"apple", b"1").unwrap(), None);
    assert_eq!(manager.put(&[200, 1], b"2").unwrap(), None);
    assert_eq!(manager.put(b"apple", b"3").unwrap(), Some(b"1".to_vec()));
    assert_eq!(manager.get(b"apple").unwrap(), Some(b"3".to_vec()));
    assert_eq!(manager.get(&[200, 1]).unwrap(), Some(b"2".to_vec()));
    assert_eq!(manager.get(b"pear").unwrap(), None);
    let dirs = dirs_of(&manager);
    assert_eq!(dirs.len(), 4);
    assert_eq!(dirs[0][0].1.len(), 0);
    assert!(dirs[1][0].1.len() > 16);
    assert_eq!(dirs[2][0].1.len(), 0);
    assert!(dirs[3][0].1.len() > 16);
}

#[test]
fn empty_key_is_refused_by_the_router() {
    let mut manager = ShardManager::new(4, 100, Vec::new()).unwrap();
    assert_eq!(manager.put(b"", b"v"), Err(EngineError::InvalidKey));
    assert_eq!(manager.get(b""), Err(EngineError::InvalidKey));
}

#[test]
fn a_shard_that_cannot_be_opened_fails_the_manager() {
    let bad = vec![(b"sst-00000000000000000001.dat".to_vec(), vec![0u8; 3])];
    let dirs = vec![Vec::new(), bad];
    assert!(matches!(ShardManager::new(3, 100, dirs), Err(EngineError::Corrupt)));
}

#[test]
fn shard_of_divides_the_byte_values_evenly() {
    assert_eq!(shard_of(3, 0), 0);
    assert_eq!(shard_of(3, 84), 0);
    assert_eq!(shard_of(3, 85), 1);
    assert_eq!(shard_of(3, 169), 1);
    assert_eq!(shard_of(3, 170), 2);
    assert_eq!(shard_of(3, 255), 2);
    assert_eq!(shard_of(2, 127), 0);
    assert_eq!(shard_of(2, 128), 1);
    assert_eq!(shard_of(1000, 17), 999);
}

#[test]
fn shard_directories_are_numbered_in_decimal() {
    assert_eq!(shard_dir(0), "./temp/shard0");
    assert_eq!(shard_dir(7), "./temp/shard7");
    assert_eq!(shard_dir(10), "./temp/shard10");
    assert_eq!(shard_dir(109), "./temp/shard109");
    assert_eq!(shard_dir(usize::MAX), format!("./temp/shard{}", usize::MAX));
    for i in 0..1200usize {
        assert_eq!(shard_dir(i), format!("./temp/shard{}", i));
    }
}
