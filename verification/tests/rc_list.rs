use fral::rc::Fral;
use std::collections::hash_map::DefaultHasher;
use std::hash::{Hash, Hasher};
use std::rc::Rc;

#[test]
fn rc_empty() {
    let f: Fral<u8> = Fral::new();
    assert_eq!(f, Fral::default());
    assert!(f.is_empty());
    assert_eq!(f.len(), 0);
}

#[test]
fn rc_singleton() {
    let f = Fral::new();
    let f = f.cons(42);
    assert_eq!(f.get(0), Some(Rc::new(42)));
    assert_eq!(f.get(1), None);
    if let Some((head, tail)) = f.uncons() {
        assert_eq!(*head, 42);
        assert!(tail.is_empty());
    } else {
        panic!("assertion failed: couldn't uncons");
    }
    assert_eq!(f.iter().collect(), vec![Rc::new(42)]);
}

#[test]
fn rc_many_items() {
    let mut f = Fral::new();
    for item in vec![1, 2, 3, 4, 5] {
        f = f.cons(item);
    }
    assert_eq!(f.get(0), Some(Rc::new(5)));
    assert_eq!(f.get(1), Some(Rc::new(4)));
    assert_eq!(f.get(2), Some(Rc::new(3)));
    assert_eq!(f.get(3), Some(Rc::new(2)));
    assert_eq!(f.get(4), Some(Rc::new(1)));
    assert_eq!(f.get(5), None);
    if let Some((head, tail)) = f.uncons() {
        assert_eq!(*head, 5);
        assert_eq!(tail.len(), 4);
    } else {
        panic!("assertion failed: couldn't uncons");
    }
    assert_eq!(
        f.iter().collect(),
        vec![
            Rc::new(5),
            Rc::new(4),
            Rc::new(3),
            Rc::new(2),
            Rc::new(1),
        ]
    );
}

fn build_rc(n: usize) -> Fral<usize> {
    let mut f = Fral::new();
    for item in 0..n {
        f = f.cons(item);
    }
    f
}

fn bits(mut n: usize) -> usize {
    let mut count = 0;
    while n > 0 {
        count += 1;
        n /= 2;
    }
    count
}

#[test]
fn rc_empty_list_has_nothing() {
    let f: Fral<u32> = Fral::new();
    assert_eq!(f.get(0), None);
    assert_eq!(f.get(usize::MAX), None);
    assert!(f.uncons().is_none());
    assert_eq!(f.segment_count(), 0);
    let mut it = f.iter();
    assert_eq!(it.size_hint(), (0, Some(0)));
    assert_eq!(it.next(), None);
    assert_eq!(it.next(), None);
    assert_eq!(f.iter().last(), None);
    assert_eq!(f.iter().count(), 0);
    assert_eq!(f.iter().collect(), Vec::<Rc<u32>>::new());
}

#[test]
fn rc_cons_adds_one_to_the_length() {
    let mut f: Fral<usize> = Fral::new();
    for n in 0..200 {
        assert_eq!(f.len(), n);
        assert_eq!(f.is_empty(), n == 0);
        f = f.cons(n);
    }
    assert_eq!(f.len(), 200);
}

#[test]
fn rc_uncons_takes_one_off_the_length() {
    let mut f = build_rc(200);
    for n in (0..200).rev() {
        let (head, tail) = f.uncons().unwrap();
        assert_eq!(*head, n);
        assert_eq!(tail.len(), n);
        f = tail;
    }
    assert!(f.is_empty());
    assert!(f.uncons().is_none());
}

#[test]
fn rc_cons_keeps_the_order() {
    for n in 0..70 {
        let f = build_rc(n);
        let g = f.cons(1000);
        assert_eq!(g.get(0), Some(Rc::new(1000)));
        for i in 0..n {
            assert_eq!(g.get(i + 1), f.get(i));
            assert_eq!(f.get(i), Some(Rc::new(n - 1 - i)));
        }
        assert_eq!(g.get(n + 1), None);
    }
}

#[test]
fn rc_uncons_then_cons_gives_the_list_back() {
    for n in 1..70 {
        let f = build_rc(n);
        let (head, tail) = f.uncons().unwrap();
        let again = tail.cons(head);
        assert_eq!(again.len(), f.len());
        for i in 0..n {
            assert_eq!(again.get(i), f.get(i));
        }
        assert_eq!(again, f);
    }
}

#[test]
fn rc_get_past_the_end_finds_nothing() {
    for n in 0..40 {
        let f = build_rc(n);
        assert_eq!(f.get(n), None);
        assert_eq!(f.get(n + 1), None);
        assert_eq!(f.get(2 * n + 7), None);
        assert_eq!(f.get(usize::MAX), None);
    }
}

#[test]
fn rc_cons_leaves_the_old_list_alone() {
    let f = build_rc(37);
    let lens_before = f.len();
    let items_before = f.iter().collect();
    let g = f.cons(99).cons(98);
    let (_, h) = f.uncons().unwrap();
    assert_eq!(g.len(), 39);
    assert_eq!(h.len(), 36);
    assert_eq!(f.len(), lens_before);
    assert_eq!(f.iter().collect(), items_before);
    for i in 0..37 {
        assert_eq!(f.get(i), Some(Rc::new(36 - i)));
    }
    assert_eq!(f.get(37), None);
}

#[test]
fn rc_lists_share_their_elements() {
    let f = build_rc(20);
    let g = f.cons(20);
    for i in 0..20 {
        assert!(Rc::ptr_eq(&f.get(i).unwrap(), &g.get(i + 1).unwrap()));
    }
    let (_, tail) = g.uncons().unwrap();
    for i in 0..20 {
        assert!(Rc::ptr_eq(&f.get(i).unwrap(), &tail.get(i).unwrap()));
    }
}

#[test]
fn rc_cons_takes_a_value_or_a_pointer() {
    let shared = Rc::new(String::from("shared"));
    let f: Fral<String> = Fral::new();
    let f = f.cons(String::from("plain"));
    let f = f.cons(shared.clone());
    assert_eq!(f.len(), 2);
    assert!(Rc::ptr_eq(&f.get(0).unwrap(), &shared));
    assert_eq!(*f.get(0).unwrap(), "shared");
    assert_eq!(*f.get(1).unwrap(), "plain");
}

#[test]
fn rc_segment_counts() {
    let expected = [0, 1, 2, 1, 2, 3, 2, 1, 2, 3, 2, 3, 4, 3, 2, 1, 2];
    for n in 0..expected.len() {
        assert_eq!(build_rc(n).segment_count(), expected[n]);
    }
}

#[test]
fn rc_segments_stay_logarithmic() {
    let mut f: Fral<u64> = Fral::new();
    let mut state: u64 = 0x2545_f491_4f6c_dd1d;
    let mut longest = 0;
    for _ in 0..20000 {
        state = state
            .wrapping_mul(6364136223846793005)
            .wrapping_add(1442695040888963407);
        let draw = state >> 33;
        if draw % 3 == 0 {
            if let Some((_, tail)) = f.uncons() {
                f = tail;
            }
        } else {
            f = f.cons(draw);
        }
        let segments = f.segment_count();
        assert!(segments <= bits(f.len() + 1));
        assert_eq!(segments == 0, f.is_empty());
        if f.len() > longest {
            longest = f.len();
        }
    }
    assert!(longest > 1000);
}

#[test]
fn rc_from_iter_puts_the_last_item_first() {
    let f: Fral<i32> = Fral::from_iter(vec![7, 0, 17]);
    assert_eq!(f.len(), 3);
    assert_eq!(f.get(0), Some(Rc::new(17)));
    assert_eq!(f.get(1), Some(Rc::new(0)));
    assert_eq!(f.get(2), Some(Rc::new(7)));
    assert_eq!(f.get(3), None);

    let mut reversed = vec![7, 0, 17];
    reversed.reverse();
    let g: Fral<i32> = Fral::from_iter(reversed);
    assert_eq!(g.get(2), Some(Rc::new(17)));

    let items = vec![1, 2, 3];
    let h: Fral<i32> = Fral::from_iter(items);
    assert_eq!(h.get(0), Some(Rc::new(3)));

    let none: Fral<i32> = Fral::from_iter(Vec::<i32>::new());
    assert!(none.is_empty());
    assert_eq!(none, Fral::new());
}

#[test]
fn rc_from_iter_is_repeated_cons() {
    let items: Vec<usize> = (0..50).collect();
    let f: Fral<usize> = Fral::from_iter(items);
    assert_eq!(f, build_rc(50));
    let pointers: Vec<Rc<usize>> = (0..5).map(Rc::new).collect();
    let g: Fral<usize> = Fral::from_iter(pointers.clone());
    for i in 0..5 {
        assert!(Rc::ptr_eq(&g.get(i).unwrap(), &pointers[4 - i]));
    }
}

#[test]
fn rc_iter_walks_front_to_back() {
    let f = build_rc(10);
    let mut it = f.iter();
    for n in (0..10).rev() {
        assert_eq!(it.len(), n + 1);
        assert_eq!(it.size_hint(), (n + 1, Some(n + 1)));
        assert_eq!(it.next(), Some(Rc::new(n)));
    }
    assert_eq!(it.len(), 0);
    assert_eq!(it.next(), None);
    assert_eq!(it.next(), None);
    assert_eq!(f.len(), 10);
}

#[test]
fn rc_iter_count_last_collect() {
    let f = build_rc(10);
    assert_eq!(f.iter().count(), 10);
    assert_eq!(f.iter().last(), Some(Rc::new(0)));
    let mut it = f.iter();
    it.next();
    it.next();
    it.next();
    assert_eq!(it.collect(), (0..7).rev().map(Rc::new).collect::<Vec<_>>());
    let mut it = f.iter();
    it.next();
    assert_eq!(it.count(), 9);
    let it = f.clone().into_iter();
    assert_eq!(it.last(), Some(Rc::new(0)));
    assert_eq!(build_rc(1).iter().last(), Some(Rc::new(0)));
}

#[test]
fn rc_iter_starts_again_from_a_clone() {
    let f = build_rc(6);
    let kept = f.clone();
    let first = f.into_iter().collect();
    let second = kept.iter().collect();
    assert_eq!(first, second);
    assert_eq!(kept.iter().take_two(), (Some(Rc::new(5)), Some(Rc::new(4))));
}

trait RcTakeTwo {
    fn take_two(self) -> (Option<Rc<usize>>, Option<Rc<usize>>);
}

impl RcTakeTwo for fral::rc::Iter<usize> {
    fn take_two(mut self) -> (Option<Rc<usize>>, Option<Rc<usize>>) {
        let a = self.next();
        let b = self.next();
        (a, b)
    }
}

#[test]
fn rc_clone_and_equality() {
    let f = build_rc(33);
    let g = f.clone();
    assert_eq!(f, g);
    assert_eq!(g.len(), 33);
    assert_ne!(f, build_rc(32));
    assert_ne!(f, f.cons(0));
    let same: Fral<usize> = Fral::from_iter((0..33).collect());
    assert_eq!(f, same);
    assert_eq!(format!("{:?}", Fral::<u8>::new()), format!("{:?}", Fral::<u8>::default()));
}

#[test]
fn rc_equal_lists_hash_alike() {
    let mut one = DefaultHasher::new();
    build_rc(21).hash(&mut one);
    let mut two = DefaultHasher::new();
    Fral::from_iter((0..21).collect::<Vec<usize>>()).hash(&mut two);
    assert_eq!(one.finish(), two.finish());
}

#[test]
fn rc_large_list() {
    let n = 5000;
    let f = build_rc(n);
    assert_eq!(f.len(), n);
    for i in 0..n {
        assert_eq!(*f.get(i).unwrap(), n - 1 - i);
    }
    assert_eq!(f.get(n), None);
    let mut rest = f.clone();
    for _ in 0..n / 2 {
        rest = rest.uncons().unwrap().1;
    }
    assert_eq!(rest.len(), n - n / 2);
    for i in 0..rest.len() {
        assert_eq!(rest.get(i), f.get(i + n / 2));
    }
}

#[test]
fn rc_example_with_shadowing() {
    let mut f = Fral::new();
    for item in vec![1, 2, 3, 4, 5] {
        f = f.cons(item);
    }
    {
        let f = f.cons(42);
        assert_eq!(*f.get(0).unwrap(), 42);
        assert_eq!(*f.get(5).unwrap(), 1);
    }
    let mut it = f.iter();
    assert_eq!(
        vec![it.next().unwrap(), it.next().unwrap()],
        vec![Rc::new(5), Rc::new(4)]
    );
}
