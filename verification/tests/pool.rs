use physics2d::pool::{Pool, PoolObject};

#[test]
fn allocate() {
    let mut pool: Pool<u32> = Pool::default();
    let id_a = pool.allocate();
    {
        let a = pool.get_mut(id_a);
        *a = 32u32;
    }
    assert_eq!(pool.object_count(), 1);
    assert_eq!(pool.next_free_object_id(), id_a + 1);
    assert_eq!(pool.get(id_a), &32);
}

#[test]
fn free() {
    let mut pool: Pool<u32> = Pool::default();
    let (_a, b, _c) = (pool.allocate(), pool.allocate(), pool.allocate());

    {
        *pool.get_mut(b) = 111u32;
    }

    pool.free(b);

    assert_eq!(pool.object_count(), 2);
    assert_eq!(pool.next_free_object_id(), b);

    let new_id = pool.allocate();

    assert_eq!(b, new_id);
    assert_eq!(pool.get(new_id), &u32::default())
}

#[test]
fn pool_object_new_holds_default_and_link() {
    let object: PoolObject<u32> = PoolObject::new(7);
    assert_eq!(object.data, 0);
    assert_eq!(object.next, 7);
}

#[test]
fn pool_new_is_empty() {
    let pool: Pool<u64> = Pool::new(4);
    assert_eq!(pool.object_count(), 0);
    assert_eq!(pool.next_free_object_id(), 0);
}

#[test]
fn allocate_with_stores_the_value() {
    let mut pool: Pool<u32> = Pool::new(0);
    let a = pool.allocate_with(5);
    let b = pool.allocate_with(9);
    assert_eq!((a, b), (0, 1));
    assert_eq!(*pool.get(a), 5);
    assert_eq!(*pool.get(b), 9);
    assert_eq!(pool.object_count(), 2);
}

#[test]
fn freed_slots_come_back_last_freed_first() {
    let mut pool: Pool<u32> = Pool::new(0);
    let ids: Vec<usize> = (0..4).map(|i| pool.allocate_with(i)).collect();
    pool.free(ids[1]);
    pool.free(ids[3]);
    assert_eq!(pool.object_count(), 2);
    assert_eq!(pool.allocate_with(10), ids[3]);
    assert_eq!(pool.allocate_with(11), ids[1]);
    assert_eq!(pool.allocate_with(12), 4);
    assert_eq!(pool.object_count(), 5);
    assert_eq!(*pool.get(ids[0]), 0);
    assert_eq!(*pool.get(ids[2]), 2);
}
