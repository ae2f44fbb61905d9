use haversine_distance::hash::fnv1a_hash;
use haversine_distance::string_pool::{PoolError, PooledString, StringPool, BUCKETS_COUNT, BUCKET_SIZE};

#[test]
fn find_should_return_none_if_not_added_yet() {
    let pool = StringPool::new();
    assert_eq!(pool.find_pooled_string("Hello Text"), Option::None);
}

#[test]
fn pooled_string_should_be_stable() -> Result<(), PoolError> {
    let mut pool = StringPool::new();

    let pooled_string_1 = pool.add_string_to_pool(String::from("hello"))?;
    let pooled_string_2 = pool.add_string_to_pool(String::from("hello"))?;

    assert_eq!(pooled_string_1, pooled_string_2);
    Ok(())
}

#[test]
fn pooled_string_is_case_sensitive() -> Result<(), PoolError> {
    let mut pool = StringPool::new();

    let pooled_string_1 = pool.add_string_to_pool(String::from("HELLO"))?;
    let pooled_string_2 = pool.add_string_to_pool(String::from("hello"))?;

    assert_ne!(pooled_string_1, pooled_string_2);

    Ok(())
}

#[test]
fn find_should_return_same_pooled_string() -> Result<(), PoolError> {
    let mut pool = StringPool::new();

    assert_eq!(pool.find_pooled_string("hello"), Option::None);
    pool.add_string_to_pool(String::from("hello"))?;
    pool.add_string_to_pool(String::from("hello"))?;

    let expected_pooled_string = PooledString {
        bucket: 267,
        offset: 0,
    };

    if let Some(found_pooled_string) = pool.find_pooled_string("hello") {
        assert_eq!(found_pooled_string, expected_pooled_string);
    } else {
        panic!("should find a pooled string, but not found");
    }

    Ok(())
}

fn bucket_of(text: &str) -> usize {
    (fnv1a_hash(text.as_bytes()) as usize) & (BUCKETS_COUNT - 1)
}

#[test]
fn added_string_is_found_under_its_id() {
    let mut pool = StringPool::new();
    let id = pool.add_string_to_pool(String::from("x1")).unwrap();
    assert_eq!(pool.find_pooled_string("x1"), Some(id));
    assert_eq!(id.bucket as usize, bucket_of("x1"));
    assert_eq!(id.offset, 0);
    assert_eq!(pool.find_pooled_string("x2"), None);
}

#[test]
fn adding_keeps_ids_of_other_strings() {
    let mut pool = StringPool::new();
    let a = pool.add_string_to_pool(String::from("alpha")).unwrap();
    let b = pool.add_string_to_pool(String::from("beta")).unwrap();
    assert_ne!(a, b);
    assert_eq!(pool.find_pooled_string("alpha"), Some(a));
    assert_eq!(pool.find_pooled_string("beta"), Some(b));
}

#[test]
fn ids_are_unique_among_many_strings() {
    let mut pool = StringPool::new();
    let mut ids = Vec::new();
    for n in 0..2000 {
        let text = format!("string number {n}");
        let id = pool.add_string_to_pool(text.clone()).unwrap();
        ids.push(id);
        assert_eq!(pool.find_pooled_string(&text), Some(id));
    }
    for i in 0..ids.len() {
        for j in (i + 1)..ids.len() {
            assert_ne!(ids[i], ids[j]);
        }
    }
    for n in 0..2000 {
        let text = format!("string number {n}");
        assert_eq!(pool.find_pooled_string(&text), Some(ids[n]));
    }
}

#[test]
fn strings_colliding_in_a_bucket_get_consecutive_offsets() {
    let target = bucket_of("c0");
    let mut colliding = vec![String::from("c0")];
    let mut n = 1;
    while colliding.len() < 3 {
        let text = format!("c{n}");
        if bucket_of(&text) == target {
            colliding.push(text);
        }
        n += 1;
    }
    let mut pool = StringPool::new();
    for (k, text) in colliding.iter().enumerate() {
        let id = pool.add_string_to_pool(text.clone()).unwrap();
        assert_eq!(id, PooledString { bucket: target as u16, offset: k as u16 });
    }
}

#[test]
fn full_bucket_refuses_new_strings_but_finds_old_ones() {
    let target = bucket_of("k0");
    let mut colliding = vec![String::from("k0")];
    let mut n = 1;
    while colliding.len() < BUCKET_SIZE + 1 {
        let text = format!("k{n}");
        if bucket_of(&text) == target {
            colliding.push(text);
        }
        n += 1;
    }
    let mut pool = StringPool::new();
    for text in colliding.iter().take(BUCKET_SIZE) {
        pool.add_string_to_pool(text.clone()).unwrap();
    }
    let last = colliding[BUCKET_SIZE].clone();
    assert_eq!(
        pool.add_string_to_pool(last.clone()),
        Err(PoolError::BucketFull { bucket: target })
    );
    assert_eq!(pool.find_pooled_string(&last), None);
    // A string already pooled is still found, and adding it again succeeds.
    let first = pool.add_string_to_pool(colliding[0].clone()).unwrap();
    assert_eq!(first, PooledString { bucket: target as u16, offset: 0 });
}

#[test]
fn pool_handles_non_ascii_strings() {
    let mut pool = StringPool::new();
    let a = pool.add_string_to_pool(String::from("mañana")).unwrap();
    let b = pool.add_string_to_pool(String::from("manana")).unwrap();
    assert_ne!(a, b);
    assert_eq!(pool.find_pooled_string("mañana"), Some(a));
    assert_eq!(a.bucket as usize, bucket_of("mañana"));
}
