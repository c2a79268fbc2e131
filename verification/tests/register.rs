use todc::register::{AtomicRegister, IntegerRegister, MutexRegister, Register};

#[derive(Clone, Copy, PartialEq, Debug)]
enum Color {
    Red,
    Blue,
}

impl Default for Color {
    fn default() -> Self {
        Color::Red
    }
}

#[derive(Clone, Copy, Default)]
struct Thing {
    color: Color,
    height_in_ft: f32,
}

#[test]
fn lib_test_new() {
    IntegerRegister::new(0);
}

#[test]
fn lib_test_read() {
    let register = IntegerRegister::new(0);
    assert_eq!(0, register.read());
}

#[test]
fn lib_test_write() {
    let mut register = IntegerRegister::new(0);
    register.write(1);
    assert_eq!(1, register.read());
}

#[test]
fn mutex_test_new() {
    MutexRegister::<bool>::new();
    MutexRegister::<u32>::new();
    MutexRegister::<Thing>::new();
}

#[test]
fn mutex_test_read() {
    let register: MutexRegister<bool> = MutexRegister::new();
    assert_eq!(false, register.read());

    let register: MutexRegister<u32> = MutexRegister::new();
    assert_eq!(0, register.read());

    let register: MutexRegister<Thing> = MutexRegister::new();
    let thing = register.read();
    let same_thing = Thing {
        color: Color::Red,
        height_in_ft: 0.0,
    };
    assert_eq!(thing.color, same_thing.color);
    assert_eq!(thing.height_in_ft, same_thing.height_in_ft);
}

#[test]
fn mutex_test_write() {
    let mut register = MutexRegister::new();
    register.write(true);
    assert_eq!(true, register.read());

    let mut register = MutexRegister::new();
    register.write(123);
    assert_eq!(123, register.read());

    let mut register = MutexRegister::new();
    let new_thing = Thing {
        color: Color::Blue,
        height_in_ft: 10.0,
    };
    register.write(new_thing);
    let contents = register.read();
    assert_eq!(contents.color, new_thing.color);
    assert_eq!(contents.height_in_ft, new_thing.height_in_ft);
}

#[test]
fn mutex_new() {
    MutexRegister::<bool>::new();
    MutexRegister::<u32>::new();
    MutexRegister::<Thing>::new();
}

#[test]
fn mutex_read() {
    let register: MutexRegister<bool> = MutexRegister::new();
    assert!(!register.read());

    let register: MutexRegister<u32> = MutexRegister::new();
    assert_eq!(0, register.read());

    let register: MutexRegister<Thing> = MutexRegister::new();
    let thing = register.read();
    let same_thing = Thing {
        color: Color::Red,
        height_in_ft: 0.0,
    };
    assert_eq!(thing.color, same_thing.color);
    assert_eq!(thing.height_in_ft, same_thing.height_in_ft);
}

#[test]
fn mutex_write() {
    let mut register = MutexRegister::new();
    register.write(true);
    assert!(register.read());

    let mut register = MutexRegister::new();
    register.write(123);
    assert_eq!(123, register.read());

    let mut register = MutexRegister::new();
    let new_thing = Thing {
        color: Color::Blue,
        height_in_ft: 10.0,
    };
    register.write(new_thing);
    let contents = register.read();
    assert_eq!(contents.color, new_thing.color);
    assert_eq!(contents.height_in_ft, new_thing.height_in_ft);
}

#[test]
fn integer_register_keeps_latest_write() {
    let mut register = IntegerRegister::new(7);
    assert_eq!(7, register.read());
    register.write(usize::MAX);
    register.write(42);
    assert_eq!(42, register.read());
}

#[test]
fn atomic_register_reads_back_write() {
    let mut register: AtomicRegister<u64> = AtomicRegister::new();
    assert_eq!(0, register.read());
    register.write(u64::MAX);
    assert_eq!(u64::MAX, register.read());
    register.write(12345);
    assert_eq!(12345, register.read());
}

#[test]
fn cloned_mutex_register_holds_same_value() {
    let mut register = MutexRegister::new();
    register.write(99u32);
    let mut clone = register.clone();
    assert_eq!(99, clone.read());
    clone.write(1);
    assert_eq!(99, register.read());
    assert_eq!(1, clone.read());
}

#[test]
fn default_atomic_register_holds_zero() {
    let register: AtomicRegister<u64> = AtomicRegister::default();
    assert_eq!(0, register.read());
}
