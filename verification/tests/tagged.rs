use bstack_raii::allocator::{BStackRaiiAllocator, Settings};
use bstack_raii::construct::{build_block, build_pair};
use bstack_raii::derive::attr::Repr;
use bstack_raii::derive::kind::Mode;
use bstack_raii::duplicate::HomeClone;
use bstack_raii::error::Error;
use bstack_raii::fields::take_value;
use bstack_raii::layout::EightCC;
use bstack_raii::mem::MemAllocator;
use bstack_raii::range::{BStackRange, FileId};
use bstack_raii::slot::Strong;
use bstack_raii::tagged::{
    check_clone, clone_plan, clone_step, create, create_pair, drop_plan, drop_step, encode,
    is_suitable, payload_at, read, replace_value, set_value, Arm, Data, DropStep, EnumLayout, Part, Seen,
};
use bstack_raii::teardown::Teardown;

fn file() -> MemAllocator {
    MemAllocator::new(
        Settings { anchor: Some(8), bulk: false, file: FileId::self_file(), stack: 1 },
        64,
        1 << 16,
    )
}

fn owning(mode: Mode) -> EnumLayout {
    EnumLayout {
        tag: EightCC::new(*b"ENUMENUM"),
        mode,
        repr: Repr::I16,
        payload: 12,
        arms: vec![
            Arm { disc: -2, part: Part::Pod(3) },
            Arm { disc: 5, part: Part::Owned(24) },
            Arm { disc: 300, part: Part::Strong(32, Some(40)) },
            Arm { disc: 7, part: Part::Weak(40) },
            Arm { disc: 8, part: Part::Ref(24) },
            Arm { disc: 9, part: Part::Strong(32, None) },
        ],
    }
}

fn flat() -> EnumLayout {
    EnumLayout {
        tag: EightCC::new(*b"FLATFLAT"),
        mode: Mode::Plain,
        repr: Repr::U8,
        payload: 8,
        arms: vec![
            Arm { disc: 0, part: Part::Pod(0) },
            Arm { disc: 1, part: Part::Ref(24) },
        ],
    }
}

fn child(a: &mut MemAllocator) -> BStackRange {
    build_block(a, Mode::Plain, &EightCC::new(*b"LEAFLEAF"), &vec![1; 8]).unwrap().data
}

#[test]
fn body_is_number_and_payload() {
    let l = owning(Mode::Plain);
    let b = encode(&l, 0, &Data::Pod(vec![1, 2, 3]));
    assert_eq!(b, vec![0xfe, 0xff, 1, 2, 3, 0, 0, 0, 0, 0, 0, 0, 0, 0]);
    let b = encode(&l, 1, &Data::Owned(BStackRange::new(0x0102, 24)));
    assert_eq!(b, vec![5, 0, 2, 1, 0, 0, 0, 0, 0, 0, 0, 0, 0, 0]);
}

#[test]
fn every_variant_comes_out_as_it_went_in() {
    let mut a = file();
    let l = owning(Mode::Plain);
    let c = child(&mut a);
    let mut ctx = Teardown::new();
    let built = create(&mut Teardown::new(), &mut a, &l, 0, Data::Pod(vec![9, 8, 7])).ok().unwrap();
    assert_eq!(built.data.len, 16 + 2 + 12);
    match take_value(&mut ctx, &mut a, &l, built.data).ok().unwrap() {
        (0, Data::Pod(b)) => assert_eq!(b, vec![9, 8, 7]),
        _ => panic!("the first variant"),
    }
    assert!(!a.live().contains(&built.data));
    let built = create(&mut Teardown::new(), &mut a, &l, 1, Data::Owned(c)).ok().unwrap();
    match take_value(&mut ctx, &mut a, &l, built.data).ok().unwrap() {
        (1, Data::Owned(r)) => assert_eq!(r, c),
        _ => panic!("the owner"),
    }
    let built = create(&mut Teardown::new(), &mut a, &l, 3, Data::Weak(None)).ok().unwrap();
    match take_value(&mut ctx, &mut a, &l, built.data).ok().unwrap() {
        (3, Data::Weak(None)) => {}
        _ => panic!("the unset weak reference"),
    }
    let built = create(&mut Teardown::new(), &mut a, &l, 4, Data::Ref(c)).ok().unwrap();
    match take_value(&mut ctx, &mut a, &l, built.data).ok().unwrap() {
        (4, Data::Ref(r)) => assert_eq!(r, c),
        _ => panic!("the borrowed reference"),
    }
}

#[test]
fn strong_variant_finds_its_control_block() {
    let mut a = file();
    let l = owning(Mode::Plain);
    let pair = build_pair(
        &mut Teardown::new(),
        &mut a,
        &EightCC::new(*b"WATCWATC"),
        EightCC::new(*b"watcwatc"),
        40,
        &vec![0; 8],
    )
    .unwrap();
    let strong = Strong { data: pair.data, ctrl: pair.ctrl };
    let built = create(&mut Teardown::new(), &mut a, &l, 2, Data::Strong(strong)).ok().unwrap();
    match read(&mut a, &l, built.data).ok().unwrap() {
        Seen::Counted(2, data, 40) => assert_eq!(data, pair.data),
        _ => panic!("the strong reference"),
    }
    assert_eq!(drop_step(&mut a, &l, built.data), Ok(DropStep::Strong(pair.data)));
    let plan = drop_plan(&mut a, &l, built.data).unwrap();
    assert_eq!(plan.variant, Some(2));
    assert_eq!(plan.step, DropStep::Strong(pair.data));
    let mut ctx = Teardown::new();
    match take_value(&mut ctx, &mut a, &l, built.data).ok().unwrap() {
        (2, Data::Strong(s)) => assert_eq!(s, strong),
        _ => panic!("the strong reference"),
    }
}

#[test]
fn unknown_number_is_an_error() {
    let mut a = file();
    let l = owning(Mode::Plain);
    let built = create(&mut Teardown::new(), &mut a, &l, 0, Data::Pod(vec![0, 0, 0])).ok().unwrap();
    a.set(built.data.start + 16, vec![77, 0]).unwrap();
    assert_eq!(read(&mut a, &l, built.data).err(), Some(Error::InvalidDiscriminant));
    assert_eq!(drop_step(&mut a, &l, built.data), Err(Error::InvalidDiscriminant));
    let mut ctx = Teardown::new();
    assert_eq!(
        take_value(&mut ctx, &mut a, &l, built.data).err(),
        Some(Error::InvalidDiscriminant)
    );
    assert!(a.live().contains(&built.data));
    let f = flat();
    let b = create(&mut Teardown::new(), &mut a, &f, 0, Data::Pod(vec![])).ok().unwrap();
    a.set(b.data.start + 16, vec![77]).unwrap();
    assert_eq!(drop_step(&mut a, &f, b.data), Ok(DropStep::Nothing));
}

#[test]
fn failed_construction_gives_the_value_back() {
    let mut a = file();
    let l = owning(Mode::Rc);
    let c = child(&mut a);
    a.fail_after(0);
    let e = create(&mut Teardown::new(), &mut a, &l, 1, Data::Owned(c)).err().unwrap();
    match e.fields {
        Some((1, Data::Owned(r))) => assert_eq!(r, c),
        _ => panic!("the owner"),
    }
    let e = create(&mut Teardown::new(), &mut a, &flat(), 1, Data::Ref(c)).err().unwrap();
    assert!(e.fields.is_none());
}

#[test]
fn counted_enums() {
    let mut a = file();
    let l = owning(Mode::Rc);
    let built = create(&mut Teardown::new(), &mut a, &l, 0, Data::Pod(vec![1, 1, 1])).ok().unwrap();
    let b = a.get(built.data.start, built.data.len).unwrap();
    assert_eq!(b[16], 1);
    assert_eq!(check_clone(&l), Err(Error::CloneCountedEnum));
    assert_eq!(check_clone(&flat()), Ok(()));
    let l = owning(Mode::RcWeak);
    let built = create_pair(
        &mut Teardown::new(),
        &mut a,
        &l,
        EightCC::new(*b"enumenum"),
        40,
        0,
        Data::Pod(vec![1, 1, 1]),
    )
    .ok()
    .unwrap();
    assert!(built.ctrl.is_some());
    match read(&mut a, &l, built.data).ok().unwrap() {
        Seen::Value(0, Data::Pod(b)) => assert_eq!(b, vec![1, 1, 1]),
        _ => panic!("the first variant"),
    }
}

#[test]
fn replacing_hands_the_old_value_out() {
    let mut a = file();
    let l = owning(Mode::Plain);
    let c = child(&mut a);
    let built = create(&mut Teardown::new(), &mut a, &l, 1, Data::Owned(c)).ok().unwrap();
    match replace_value(&mut a, &l, built.data, 0, Data::Pod(vec![4, 5, 6])).ok().unwrap() {
        (1, Data::Owned(r)) => assert_eq!(r, c),
        _ => panic!("the owner"),
    }
    a.fail_after(0);
    let e = replace_value(&mut a, &l, built.data, 1, Data::Owned(c)).err().unwrap();
    match e.error.value {
        Some((1, Data::Owned(r))) => assert_eq!(r, c),
        _ => panic!("the new value"),
    }
    assert!(e.raw.is_empty());
    a.repair();
    match replace_value(&mut a, &l, built.data, 3, Data::Weak(None)).ok().unwrap() {
        (0, Data::Pod(b)) => assert_eq!(b, vec![4, 5, 6]),
        _ => panic!("the first variant"),
    }
}

#[test]
fn stranded_strong_block_is_named() {
    let mut a = file();
    let l = owning(Mode::Plain);
    let pair = build_pair(
        &mut Teardown::new(),
        &mut a,
        &EightCC::new(*b"WATCWATC"),
        EightCC::new(*b"watcwatc"),
        40,
        &vec![0; 8],
    )
    .unwrap();
    let strong = Strong { data: pair.data, ctrl: pair.ctrl };
    let built = create(&mut Teardown::new(), &mut a, &l, 2, Data::Strong(strong)).ok().unwrap();
    a.fail_after(1);
    let e = replace_value(&mut a, &l, built.data, 3, Data::Weak(None)).err().unwrap();
    assert!(e.error.value.is_none());
    assert_eq!(e.raw, vec![pair.data]);
}

#[test]
fn owning_nothing_it_is_overwritten() {
    let mut a = file();
    let f = flat();
    let c = child(&mut a);
    let built = create(&mut Teardown::new(), &mut a, &f, 0, Data::Pod(vec![])).ok().unwrap();
    assert_eq!(set_value(&mut a, &f, built.data, 1, &Data::Ref(c)), Ok(()));
    let seen = read(&mut a, &f, built.data).ok().unwrap();
    match &seen {
        Seen::Value(1, Data::Ref(r)) => assert_eq!(*r, c),
        _ => panic!("the borrowed reference"),
    }
    let l = owning(Mode::Plain);
    assert_eq!(clone_step(&f, &seen), HomeClone::Nothing);
    assert_eq!(clone_step(&l, &Seen::Value(1, Data::Owned(c))), HomeClone::Deep(c));
    assert_eq!(clone_step(&l, &Seen::Counted(2, c, 40)), HomeClone::Strong(c));
    assert_eq!(
        clone_step(&l, &Seen::Value(3, Data::Weak(Some(c)))),
        HomeClone::Weak(c.start)
    );
}

#[test]
fn strong_value_comes_back_without_a_look_at_its_control_block() {
    let mut a = file();
    let l = owning(Mode::Plain);
    let data = BStackRange::new(640, 32);
    let strong = Strong { data, ctrl: Some(BStackRange::new(800, 40)) };
    let built = create(&mut Teardown::new(), &mut a, &l, 0, Data::Pod(vec![1, 2, 3])).ok().unwrap();
    a.fail_after(0);
    let e = create(&mut Teardown::new(), &mut a, &l, 2, Data::Strong(strong)).err().unwrap();
    match e.fields {
        Some((2, Data::Strong(s))) => assert_eq!(s, strong),
        _ => panic!("the strong reference"),
    }
    let e = replace_value(&mut a, &l, built.data, 2, Data::Strong(strong)).err().unwrap();
    match e.error.value {
        Some((2, Data::Strong(s))) => assert_eq!(s, strong),
        _ => panic!("the strong reference"),
    }
}

#[test]
fn copying_goes_by_the_variant() {
    let mut a = file();
    let l = owning(Mode::Plain);
    let c = child(&mut a);
    let built = create(&mut Teardown::new(), &mut a, &l, 1, Data::Owned(c)).ok().unwrap();
    let p = clone_plan(&mut a, &l, built.data).ok().unwrap();
    assert_eq!(p.variant, Some(1));
    assert_eq!(p.step, HomeClone::Deep(c));
    assert_eq!(p.bytes, a.get(built.data.start, built.data.len).unwrap());
    a.set(built.data.start + 16, vec![0x77]).unwrap();
    assert_eq!(clone_plan(&mut a, &l, built.data).err(), Some(Error::InvalidDiscriminant));
    assert_eq!(drop_plan(&mut a, &l, built.data).err(), Some(Error::InvalidDiscriminant));
    let f = flat();
    let b = create(&mut Teardown::new(), &mut a, &f, 1, Data::Ref(c)).ok().unwrap();
    a.set(b.data.start + 16, vec![0x77]).unwrap();
    let p = clone_plan(&mut a, &f, b.data).ok().unwrap();
    assert_eq!(p.variant, None);
    assert_eq!(p.step, HomeClone::Nothing);
    let r = create(&mut Teardown::new(), &mut a, &owning(Mode::Rc), 1, Data::Owned(c)).ok().unwrap();
    assert_eq!(
        clone_plan(&mut a, &owning(Mode::Rc), r.data).err(),
        Some(Error::CloneCountedEnum)
    );
}

#[test]
fn values_suit_their_variant() {
    let l = owning(Mode::Plain);
    assert!(is_suitable(&l, 0, &Data::Pod(vec![1, 2, 3])));
    assert!(!is_suitable(&l, 0, &Data::Pod(vec![1, 2])));
    assert!(!is_suitable(&l, 0, &Data::Weak(None)));
    assert!(is_suitable(&l, 3, &Data::Weak(None)));
    assert!(!is_suitable(&l, 99, &Data::Weak(None)));
    let data = BStackRange::new(640, 32);
    assert!(!is_suitable(&l, 2, &Data::Strong(Strong { data, ctrl: None })));
}

fn inlaid(mode: Mode) -> EnumLayout {
    EnumLayout {
        tag: EightCC::new(*b"INLAIDIN"),
        mode,
        repr: Repr::U16,
        payload: 24,
        arms: vec![
            Arm { disc: 1, part: Part::Pod(3) },
            Arm { disc: 2, part: Part::Embed(24) },
        ],
    }
}

#[test]
fn embedded_block_goes_in_and_comes_out() {
    let mut a = file();
    let l = inlaid(Mode::Plain);
    let c = child(&mut a);
    let image = a.get(c.start, 24).unwrap();
    let mut ctx = Teardown::new();
    let built = create(&mut ctx, &mut a, &l, 1, Data::Embed(c)).ok().unwrap();
    assert_eq!(a.live(), &[built.data]);
    assert_eq!(payload_at(&l), 18);
    assert_eq!(a.get(built.data.start + 18, 24).unwrap(), image);
    match read(&mut a, &l, built.data).ok().unwrap() {
        Seen::Embedded(1, 24) => {}
        _ => panic!("the embedded block"),
    }
    let p = drop_plan(&mut a, &l, built.data).ok().unwrap();
    assert_eq!((p.variant, p.step), (Some(1), DropStep::Embedded(18, 24)));
    let p = clone_plan(&mut a, &l, built.data).ok().unwrap();
    assert_eq!((p.variant, p.step), (Some(1), HomeClone::Inline(18, 24)));
    match take_value(&mut ctx, &mut a, &l, built.data).ok().unwrap() {
        (1, Data::Embed(out)) => {
            assert_eq!(a.live(), &[out]);
            assert_eq!(a.get(out.start, 24).unwrap(), image);
        }
        _ => panic!("the embedded block"),
    }
}

#[test]
fn embedded_block_is_given_back_at_every_failure() {
    for steps in 0..4 {
        let mut a = file();
        let l = inlaid(Mode::Plain);
        let c = child(&mut a);
        let image = a.get(c.start, 24).unwrap();
        a.fail_after(steps);
        let e = create(&mut Teardown::new(), &mut a, &l, 1, Data::Embed(c)).err().unwrap();
        match e.fields {
            Some((1, Data::Embed(back))) => assert_eq!(back, c),
            _ => panic!("the embedded block"),
        }
        a.fail_after(100);
        assert!(a.live().contains(&c));
        assert_eq!(a.get(c.start, 24).unwrap(), image);
    }
    let mut a = file();
    let c = child(&mut a);
    let l = inlaid(Mode::RcWeak);
    let tag = EightCC::new(*b"inlaidin");
    let built =
        create_pair(&mut Teardown::new(), &mut a, &l, tag, 40, 1, Data::Embed(c)).ok().unwrap();
    assert_eq!(a.live(), &[built.data, built.ctrl.unwrap()]);
    assert!(is_suitable(&l, 1, &Data::Embed(c)));
    assert!(!is_suitable(&l, 1, &Data::Embed(BStackRange::new(8, 23))));
}
