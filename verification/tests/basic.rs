use accumulator::Accumulator;
use rand::random;

#[test]
fn add() {
    let mut accumulator = Accumulator::with_capacity(1, 100);

    assert!(accumulator.add(2, 3).is_some());
    assert_eq!(accumulator.contains_key(&1), false);
    assert_eq!(accumulator.contains_key(&2), true);
    assert_eq!(accumulator.is_quorum_reached(&1), false);
    assert_eq!(accumulator.is_quorum_reached(&2), true);
    assert!(accumulator.add(1, 3).is_some());
    assert_eq!(accumulator.contains_key(&1), true);
    assert_eq!(accumulator.is_quorum_reached(&1), true);
    assert!(accumulator.add(1, 3).is_some());
    assert_eq!(accumulator.contains_key(&1), true);
    assert_eq!(accumulator.is_quorum_reached(&1), true);

    let mut responses = accumulator.get(&1).expect("entry 1 does not exist");

    assert_eq!(responses.len(), 1);
    assert!(responses.contains(&3));

    responses = accumulator.get(&2).expect("entry 2 does not exist");

    assert_eq!(responses.len(), 1);
    assert!(responses.contains(&3));
}

#[test]
fn add_single_value_quorum() {
    let quorum_size = 19;
    let mut accumulator = Accumulator::with_capacity(quorum_size, 100);
    let key = random::<i32>();
    for i in 0..quorum_size - 1 {
        let value = random::<u32>();
        assert!(accumulator.add(key, value).is_none());
        let retrieved_value = accumulator.get(&key).expect("entry `key` does not exist");
        assert_eq!(retrieved_value.len(), i + 1);
        assert_eq!(accumulator.is_quorum_reached(&key), false);
    }
    assert!(accumulator.add(key, random()).is_some());
    assert_eq!(accumulator.is_quorum_reached(&key), true);
    let retrieved_value = accumulator.get(&key).expect("entry `key` does not exist");
    assert_eq!(retrieved_value.len(), quorum_size);
}

#[test]
fn add_multiple_values_quorum() {
    let quorum_size = 19;
    let mut accumulator = Accumulator::with_capacity(quorum_size, 100);
    let key = random::<i32>();
    for _ in 0..quorum_size - 1 {
        assert!(accumulator.add(key, random::<u32>()).is_none());
        assert_eq!(accumulator.is_quorum_reached(&key), false);
    }
    assert!(accumulator.add(key, random::<u32>()).is_some());
    assert_eq!(accumulator.is_quorum_reached(&key), true);
}

#[test]
fn add_multiple_keys_quorum() {
    let quorum_size = 19;
    let mut accumulator = Accumulator::with_capacity(quorum_size, 100);
    let key = random::<i32>();
    let mut noise_keys: Vec<i32> = Vec::with_capacity(5);
    while noise_keys.len() < 5 {
        let noise_key = random::<i32>();
        if noise_key != key {
            noise_keys.push(noise_key);
        }
    }
    for _ in 0..quorum_size - 1 {
        for noise_key in &noise_keys {
            let _ = accumulator.add(*noise_key, random::<u32>());
        }
        assert!(accumulator.add(key, random::<u32>()).is_none());
        assert_eq!(accumulator.is_quorum_reached(&key), false);
    }
    assert!(accumulator.add(key, random::<u32>()).is_some());
    assert_eq!(accumulator.is_quorum_reached(&key), true);
}

#[test]
fn delete() {
    let mut accumulator = Accumulator::with_capacity(2, 100);

    assert!(accumulator.add(1, 1).is_none());
    assert_eq!(accumulator.contains_key(&1), true);
    assert_eq!(accumulator.is_quorum_reached(&1), false);

    let mut responses: Vec<_> = accumulator
        .get(&1)
        .expect("entry 1 does not exist")
        .iter()
        .cloned()
        .collect();

    assert_eq!(responses, vec![1]);

    accumulator.delete(&1);

    assert!(accumulator.get(&1).is_none());

    assert!(accumulator.add(1, 1).is_none());
    assert_eq!(accumulator.contains_key(&1), true);
    assert_eq!(accumulator.is_quorum_reached(&1), false);
    assert!(accumulator.add(1, 2).is_some());
    assert_eq!(accumulator.contains_key(&1), true);
    assert_eq!(accumulator.is_quorum_reached(&1), true);

    responses = accumulator
        .get(&1)
        .expect("entry 1 does not exist")
        .iter()
        .cloned()
        .collect();

    assert_eq!(responses.len(), 2);
    assert!(responses.contains(&1));
    assert!(responses.contains(&2));

    accumulator.delete(&1);

    assert!(accumulator.get(&1).is_none());
}

#[test]
fn fill() {
    let mut accumulator = Accumulator::with_capacity(1, 1000);

    for count in 0..1000 {
        assert!(accumulator.add(count, 1).is_some());
        assert_eq!(accumulator.contains_key(&count), true);
        assert_eq!(accumulator.is_quorum_reached(&count), true);
    }

    for count in 0..1000 {
        let responses = accumulator.get(&count).expect("entry `count` does not exist");
        assert_eq!(responses.len(), 1);
        assert!(responses.contains(&1));
    }
}

#[test]
fn cache_removals() {
    let mut accumulator = Accumulator::with_capacity(2, 1000);

    for count in 0..1000 {
        assert!(accumulator.add(count, 1).is_none());
        assert_eq!(accumulator.contains_key(&count), true);
        assert_eq!(accumulator.is_quorum_reached(&count), false);

        let responses = accumulator.get(&count).expect("entry `count` does not exist");

        assert_eq!(responses.len(), 1);
        assert!(responses.contains(&1));
    }

    assert!(accumulator.add(1000, 1).is_none());
    assert_eq!(accumulator.contains_key(&1000), true);
    assert_eq!(accumulator.is_quorum_reached(&1000), false);
    assert_eq!(accumulator.cache_size(), 1000);

    for count in 0..1000 {
        assert!(accumulator.get(&count).is_none());
        assert!(accumulator.add(count + 1001, 1).is_none());
        assert_eq!(accumulator.contains_key(&(count + 1001)), true);
        assert_eq!(accumulator.is_quorum_reached(&(count + 1001)), false);
        assert_eq!(accumulator.cache_size(), 1000);
    }
}

#[test]
fn set_quorum() {
    let mut accumulator: Accumulator = Accumulator::with_capacity(2, 100);
    let random = random::<u64>() as usize;
    accumulator.set_quorum(random);
    assert_eq!(random, accumulator.quorum());
}
