use blobber::logic::vec2d::Vec2d;

#[test]
fn test_vec2d_default() {
    let mut vec = Vec2d::<i32>::new(2, 7, 33);
    assert_eq!(vec.len(), 14);
    assert_eq!(vec.shape(), (2, 7));

    vec.set(0, 3, 30);
    vec.set(1, 6, 42);
    vec.set(1, 2, 123);
    let bumped = vec.value(1, 2) + 3;
    vec.set(1, 2, bumped);

    for x in 0..2 {
        for y in 0..7 {
            match (x, y) {
                (0, 3) => assert_eq!(vec.get(x, y), &30),
                (1, 2) => assert_eq!(vec.get(x, y), &126),
                (1, 6) => assert_eq!(vec.get(x, y), &42),
                _ => assert_eq!(vec.get(x, y), &33),
            }
        }
    }
}

#[test]
fn test_vec2d_creator() {
    let vec = Vec2d::<i32>::new_with_creator(3, 4, |x: u32, y: u32| -> i32 { (x + y) as i32 });
    assert_eq!(vec.len(), 12);
    assert_eq!(vec.shape(), (3, 4));

    for x in 0..3 {
        for y in 0..4 {
            assert_eq!(*vec.get(x, y), (x + y) as i32);
        }
    }
}

#[test]
fn test_vec2d_replace_and_iter() {
    let mut vec = Vec2d::<i32>::new(2, 2, 5);
    let was = vec.replace(1, 0, 9);
    assert_eq!(was, 5);
    assert_eq!(*vec.get(1, 0), 9);

    // storage order is row-major: (0,0), (0,1), (1,0), (1,1)
    let mut seen = Vec::new();
    let mut it = vec.iter();
    while let Some(v) = it.next() {
        seen.push(*v);
    }
    assert_eq!(seen, vec![5, 5, 9, 5]);
}

#[test]
fn test_vec2d_for_each() {
    let vec = Vec2d::<i32>::new_with_creator(3, 4, |x: u32, y: u32| -> i32 {
        (x * 100 + y) as i32
    });
    vec.for_each(|x: u32, y: u32, v: &i32| {
        assert_eq!(*v, (x * 100 + y) as i32);
    });
}

#[test]
fn test_vec2d_for_each_mut() {
    let mut vec = Vec2d::<i32>::new_with_creator(2, 3, |x: u32, y: u32| -> i32 {
        (x * 10 + y) as i32
    });
    vec.for_each_mut(|_x: u32, _y: u32, v: &i32| -> i32 { v + 1 });
    for x in 0..2 {
        for y in 0..3 {
            assert_eq!(*vec.get(x, y), (x * 10 + y + 1) as i32);
        }
    }
}
