use lau_functor_network::monad::{Maybe, Monad, MonadKind, MonadStack, Reader, State, Writer};

#[test]
fn test_maybe_return() {
    let m = Maybe::return_(42);
    assert_eq!(m, Maybe::Just(42));
}

#[test]
fn test_maybe_bind_just() {
    let m = Maybe::Just(5);
    let result = m.bind(|x| Maybe::Just(x * 2));
    assert_eq!(result, Maybe::Just(10));
}

#[test]
fn test_maybe_bind_nothing() {
    let m: Maybe<i32> = Maybe::Nothing;
    let result = m.bind(|x| Maybe::Just(x * 2));
    assert_eq!(result, Maybe::Nothing);
}

#[test]
fn test_maybe_left_identity() {
    let a = 3;
    let f = |x: &i32| Maybe::Just(*x + 1);
    let left = Maybe::return_(a).bind(f);
    let right = f(&a);
    assert_eq!(left, right);
}

#[test]
fn test_maybe_right_identity() {
    let m = Maybe::Just(7);
    let result = m.bind(|x| Maybe::return_(*x));
    assert_eq!(result, Maybe::Just(7));
}

#[test]
fn test_maybe_associativity() {
    let m = Maybe::Just(3);
    let f = |x: &i32| Maybe::Just(*x + 1);
    let g = |x: &i32| Maybe::Just(*x * 2);
    let left = m.bind(&f).bind(&g);
    let right = m.bind(move |x| f(x).bind(&g));
    assert_eq!(left, right);
}

#[test]
fn test_maybe_is_checks() {
    assert!(Maybe::Just(1).is_just());
    assert!(!Maybe::Just(1).is_nothing());
    assert!(Maybe::<i32>::Nothing.is_nothing());
    assert!(!Maybe::<i32>::Nothing.is_just());
}

#[test]
fn test_writer_return() {
    let w: Writer<&str, i32> = Writer::return_(42);
    assert_eq!(w.value, 42);
    assert!(w.log.is_empty());
}

#[test]
fn test_writer_bind() {
    let w: Writer<&str, i32> = Writer::return_(5);
    let result = w.bind(|x| Writer {
        value: x * 2,
        log: vec!["doubled"],
    });
    assert_eq!(result.value, 10);
    assert_eq!(result.log, vec!["doubled"]);
}

#[test]
fn test_writer_tell() {
    let w = Writer::<&str, ()>::tell("event");
    assert_eq!(w.log, vec!["event"]);
}

#[test]
fn test_writer_monad_left_identity() {
    let f = |x: i32| Writer::<&str, _> { value: x + 1, log: vec![] };
    let left = Writer::<&str, _>::return_(3).bind(&f);
    let right = f(3);
    assert_eq!(left.value, right.value);
}

#[test]
fn test_writer_right_identity() {
    let m = Writer::<&str, _>::return_(3);
    let result = m.bind(|x| Writer::<&str, _>::return_(x));
    assert_eq!(result.value, 3);
}

#[test]
fn test_state_return_and_eval() {
    let s = State::<i32, i32>::return_(42);
    assert_eq!(s.eval(0), 42);
}

#[test]
fn test_state_get() {
    let s = State::<i32, i32>::get();
    assert_eq!(s.eval(99), 99);
}

#[test]
fn test_state_put() {
    let s = State::<i32, ()>::put(7);
    let (_, new_state) = (s.run)(0);
    assert_eq!(new_state, 7);
}

#[test]
fn test_reader_return_and_eval() {
    let r = Reader::<i32, i32>::return_(42);
    assert_eq!(r.eval(&0), 42);
}

#[test]
fn test_reader_ask() {
    let r = Reader::<i32, i32>::ask();
    assert_eq!(r.eval(&99), 99);
}

#[test]
fn test_monad_creation() {
    let m = Monad::new("StateMonad", MonadKind::State)
        .with_description("Stateful computations");
    assert_eq!(m.name, "StateMonad");
    assert_eq!(m.kind, MonadKind::State);
}

#[test]
fn test_monad_stack() {
    let stack = MonadStack::new("AppState")
        .push(MonadKind::Reader)
        .push(MonadKind::State)
        .push(MonadKind::IO);
    assert_eq!(stack.layers.len(), 3);
}

// ---- further cases ----

#[test]
fn maybe_bind_can_fail() {
    let m = Maybe::Just(5);
    let r: Maybe<i32> = m.bind(|x| if *x > 3 { Maybe::Nothing } else { Maybe::Just(*x) });
    assert_eq!(r, Maybe::Nothing);
}

#[test]
fn writer_bind_joins_logs_in_order() {
    let w = Writer { value: 1, log: vec!["first"] };
    let r = w.bind(|x| Writer { value: x + 1, log: vec!["second", "third"] });
    assert_eq!(r.value, 2);
    assert_eq!(r.log, vec!["first", "second", "third"]);
}

#[test]
fn writer_associativity_on_values() {
    let f = |x: i32| Writer { value: x + 1, log: vec!["f"] };
    let g = |x: i32| Writer { value: x * 10, log: vec!["g"] };
    let m = Writer { value: 2, log: vec!["m"] };
    let left = m.clone().bind(&f).bind(&g);
    let right = m.bind(|x| f(x).bind(&g));
    assert_eq!(left, right);
    assert_eq!(left.value, 30);
    assert_eq!(left.log, vec!["m", "f", "g"]);
}

#[test]
fn writer_tell_value_is_unit() {
    let w = Writer::<i32, ()>::tell(7);
    assert_eq!(w.value, ());
    assert_eq!(w.log.len(), 1);
}

#[test]
fn state_bind_threads_state() {
    let counter = State::<i32, i32>::get().bind(|n: i32| {
        State::<i32, ()>::put(n + 1).bind(move |_u: ()| State::<i32, i32>::return_(n * 10))
    });
    let (value, new_state) = (counter.run)(4);
    assert_eq!(value, 40);
    assert_eq!(new_state, 5);
    assert_eq!(counter.eval(0), 0);
}

#[test]
fn state_left_identity_on_values() {
    let k = |a: i32| State::<i32, ()>::put(a);
    let left = State::<i32, i32>::return_(9).bind(k);
    let right = k(9);
    assert_eq!((left.run)(1), (right.run)(1));
}

#[test]
fn reader_bind_reads_same_environment() {
    let r = Reader::<i32, i32>::ask().bind(|n: i32| Reader::<i32, i32>::return_(n * 2));
    assert_eq!(r.eval(&21), 42);
    let both = Reader::<i32, i32>::ask()
        .bind(|n: i32| Reader::<i32, i32>::ask().bind(move |m: i32| Reader::<i32, i32>::return_(n + m)));
    assert_eq!(both.eval(&5), 10);
}

#[test]
fn monad_defaults_and_stack_order() {
    let m = Monad::new("M", MonadKind::Custom("Parser".into()));
    assert_eq!(m.description, "");
    assert_eq!(m.kind, MonadKind::Custom("Parser".into()));
    let stack = MonadStack::new("S").push(MonadKind::Maybe).push(MonadKind::Writer);
    assert_eq!(stack.name, "S");
    assert_eq!(stack.layers, vec![MonadKind::Maybe, MonadKind::Writer]);
}
