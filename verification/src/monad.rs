//! Monads — computational effects as monads (Maybe for nullable, State for mutation, Reader for config).

use vstd::prelude::*;
use std::marker::PhantomData;

verus! {

/// A monad descriptor.
#[derive(Debug)]
pub struct Monad {
    pub name: String,
    pub description: String,
    pub kind: MonadKind,
}

#[derive(Debug, Clone, PartialEq)]
pub enum MonadKind {
    Maybe,
    State,
    Reader,
    Writer,
    Either,
    List,
    IO,
    Custom(String),
}

impl Monad {
    pub fn new(name: &str, kind: MonadKind) -> (r: Self)
        ensures
            r.name@ == name@,
            r.description@ == Seq::<char>::empty(),
            r.kind == kind,
    {
        Monad { name: String::from_str(name), description: String::new(), kind }
    }

    pub fn with_description(self, desc: &str) -> (r: Self)
        ensures
            r.name == self.name,
            r.description@ == desc@,
            r.kind == self.kind,
    {
        let mut m = self;
        m.description = String::from_str(desc);
        m
    }
}

/// Maybe monad — represents nullable/optional values.
#[derive(Debug, Clone, PartialEq)]
pub enum Maybe<T> {
    Just(T),
    Nothing,
}

/// Bind on `Maybe`, for a function given as a spec function.
pub open spec fn maybe_bind<T, U>(m: Maybe<T>, f: spec_fn(T) -> Maybe<U>) -> Maybe<U> {
    match m {
        Maybe::Just(v) => f(v),
        Maybe::Nothing => Maybe::Nothing,
    }
}

impl<T: Clone> Maybe<T> {
    pub fn return_(value: T) -> (r: Self)
        ensures
            r == Maybe::Just(value),
    {
        Maybe::Just(value)
    }

    /// Applies `f` to the wrapped value; `Nothing` stays `Nothing`.
    pub fn bind<U, F>(&self, f: F) -> (r: Maybe<U>) where F: Fn(&T) -> Maybe<U>
        requires
            self matches Maybe::Just(v) ==> f.requires((&v,)),
        ensures
            match *self {
                Maybe::Just(v) => f.ensures((&v,), r),
                Maybe::Nothing => r == Maybe::<U>::Nothing,
            },
            forall|g: spec_fn(T) -> Maybe<U>|
                (forall|x: T, y: Maybe<U>| #[trigger] f.ensures((&x,), y) ==> y == g(x)) ==> r
                    == maybe_bind(*self, g),
    {
        match self {
            Maybe::Just(v) => f(v),
            Maybe::Nothing => Maybe::Nothing,
        }
    }

    pub fn is_just(&self) -> (r: bool)
        ensures
            r == (*self is Just),
    {
        match self {
            Maybe::Just(_) => true,
            Maybe::Nothing => false,
        }
    }

    pub fn is_nothing(&self) -> (r: bool)
        ensures
            r == (*self is Nothing),
    {
        match self {
            Maybe::Just(_) => false,
            Maybe::Nothing => true,
        }
    }
}

/// Left identity: binding `return_(a)` to `f` is `f(a)`.
pub proof fn law_maybe_left_identity<T, U>(a: T, f: spec_fn(T) -> Maybe<U>)
    ensures
        maybe_bind(Maybe::Just(a), f) == f(a),
{
}

/// Right identity: binding `m` to `return_` is `m`.
pub proof fn law_maybe_right_identity<T>(m: Maybe<T>)
    ensures
        maybe_bind(m, |x: T| Maybe::Just(x)) == m,
{
}

/// Associativity: `(m >>= f) >>= g` is `m >>= (x ↦ f(x) >>= g)`.
pub proof fn law_maybe_associativity<T, U, W>(
    m: Maybe<T>,
    f: spec_fn(T) -> Maybe<U>,
    g: spec_fn(U) -> Maybe<W>,
)
    ensures
        maybe_bind(maybe_bind(m, f), g) == maybe_bind(m, |x: T| maybe_bind(f(x), g)),
{
}

/// State monad — represents stateful computations `S -> (A, S)`. The
/// computation is a closure of type `F`; the constructors are reached through
/// `State::<S, A>`.
pub struct State<S, A, F = ()> {
    pub run: F,
    pub marker: PhantomData<(S, A)>,
}

/// Bind on state computations given as spec functions: run `m`, hand its
/// value to `k`, and run the computation that `k` gives on the new state.
pub open spec fn state_bind<S, A, U>(m: spec_fn(S) -> (A, S), k: spec_fn(A) -> spec_fn(S) -> (U, S)) -> spec_fn(S) -> (U, S) {
    |s: S| k(m(s).0)(m(s).1)
}

/// The state computation that returns `a` and keeps the state.
pub open spec fn state_unit<S, A>(a: A) -> spec_fn(S) -> (A, S) {
    |s: S| (a, s)
}

/// `run` may be called on `s`, and `f` on every value it may give, and each
/// resulting computation on the state it leaves.
pub open spec fn state_bind_ready<S, A, U, F: Fn(S) -> (A, S), G: Fn(S) -> (U, S), H: Fn(A) -> State<S, U, G>>(run: F, f: H, s: S) -> bool {
    &&& run.requires((s,))
    &&& forall|a: A, s2: S| #[trigger] run.ensures((s,), (a, s2)) ==> f.requires((a,)) && forall|st: State<S, U, G>|
        #[trigger] f.ensures((a,), st) ==> st.run.requires((s2,))
}

/// `out` is what running `run` on `s`, then the computation that `f` makes
/// of its value on the state it leaves, may give.
pub open spec fn state_bind_ran<S, A, U, F: Fn(S) -> (A, S), G: Fn(S) -> (U, S), H: Fn(A) -> State<S, U, G>>(run: F, f: H, s: S, out: (U, S)) -> bool {
    exists|a: A, s2: S, st: State<S, U, G>|
        #[trigger] run.ensures((s,), (a, s2)) && #[trigger] f.ensures((a,), st) && st.run.ensures((s2,), out)
}

/// Every result of `run` is given by `m`, and every result of each
/// computation that `f` makes of a value `a` is given by `k(a)`.
pub open spec fn state_models<S, A, U, F: Fn(S) -> (A, S), G: Fn(S) -> (U, S), H: Fn(A) -> State<S, U, G>>(
    run: F,
    f: H,
    m: spec_fn(S) -> (A, S),
    k: spec_fn(A) -> spec_fn(S) -> (U, S),
) -> bool {
    &&& forall|s: S, o: (A, S)| #[trigger] run.ensures((s,), o) ==> o == m(s)
    &&& forall|a: A, st: State<S, U, G>, s2: S, o: (U, S)|
        #[trigger] f.ensures((a,), st) && #[trigger] st.run.ensures((s2,), o) ==> o == k(a)(s2)
}

impl<S: Clone, A: Clone> State<S, A, ()> {
    /// The computation that returns (a clone of) `value` and keeps the state.
    pub fn return_(value: A) -> (r: State<S, A, impl Fn(S) -> (A, S)>)
        ensures
            forall|s: S| #[trigger] r.run.requires((s,)),
            forall|s: S, out: (A, S)| #[trigger] r.run.ensures((s,), out) ==> cloned(value, out.0) && out.1 == s,
    {
        let v = value;
        let gv: Ghost<A> = Ghost(v);
        let run = move |s: S| -> (out: (A, S))
            ensures
                cloned(gv@, out.0),
                out.1 == s,
            {
                (v.clone(), s)
            };
        State { run, marker: PhantomData }
    }

    /// The computation that returns (a clone of) the state and keeps it.
    pub fn get() -> (r: State<S, S, impl Fn(S) -> (S, S)>)
        ensures
            forall|s: S| #[trigger] r.run.requires((s,)),
            forall|s: S, out: (S, S)| #[trigger] r.run.ensures((s,), out) ==> cloned(s, out.0) && out.1 == s,
    {
        let run = |s: S| -> (out: (S, S))
            ensures
                cloned(s, out.0),
                out.1 == s,
            {
                (s.clone(), s)
            };
        State { run, marker: PhantomData }
    }

    /// The computation that replaces the state by (a clone of) `new_state`.
    pub fn put(new_state: S) -> (r: State<S, (), impl Fn(S) -> ((), S)>)
        ensures
            forall|s: S| #[trigger] r.run.requires((s,)),
            forall|s: S, out: ((), S)| #[trigger] r.run.ensures((s,), out) ==> cloned(new_state, out.1),
    {
        let gn: Ghost<S> = Ghost(new_state);
        let run = move |_s: S| -> (out: ((), S))
            ensures
                cloned(gn@, out.1),
            {
                ((), new_state.clone())
            };
        State { run, marker: PhantomData }
    }
}

impl<S, A, F: Fn(S) -> (A, S)> State<S, A, F> {
    /// Run `self`, hand its value to `f`, and run the computation `f` gives
    /// on the state `self` leaves.
    pub fn bind<U, G: Fn(S) -> (U, S), H: Fn(A) -> State<S, U, G>>(self, f: H) -> (r: State<S, U, impl Fn(S) -> (U, S)>)
        ensures
            forall|s: S| state_bind_ready(self.run, f, s) ==> #[trigger] r.run.requires((s,)),
            forall|s: S, out: (U, S)| #[trigger] r.run.ensures((s,), out) ==> state_bind_ran(self.run, f, s, out),
            forall|m: spec_fn(S) -> (A, S), k: spec_fn(A) -> spec_fn(S) -> (U, S)|
                #[trigger] state_models(self.run, f, m, k) ==> forall|s: S, out: (U, S)|
                    #[trigger] r.run.ensures((s,), out) ==> out == state_bind(m, k)(s),
    {
        let first = self.run;
        let gfirst: Ghost<F> = Ghost(first);
        let gf: Ghost<H> = Ghost(f);
        let run = move |s: S| -> (out: (U, S))
            requires
                state_bind_ready(gfirst@, gf@, s),
            ensures
                state_bind_ran(gfirst@, gf@, s, out),
            {
                let (a, s2) = first(s);
                let st = f(a);
                (st.run)(s2)
            };
        State { run, marker: PhantomData }
    }

    /// The value that running the computation on `s` returns.
    pub fn eval(&self, s: S) -> (r: A)
        requires
            self.run.requires((s,)),
        ensures
            exists|t: S| self.run.ensures((s,), (r, t)),
    {
        (self.run)(s).0
    }
}

/// Left identity for state computations: returning `a`, then `k`, is `k(a)`.
pub proof fn law_state_left_identity<S, A, U>(a: A, k: spec_fn(A) -> spec_fn(S) -> (U, S))
    ensures
        state_bind(state_unit::<S, A>(a), k) == k(a),
{
    assert(state_bind(state_unit::<S, A>(a), k) =~= k(a));
}

/// Right identity for state computations: binding to `return_` changes
/// nothing.
pub proof fn law_state_right_identity<S, A>(m: spec_fn(S) -> (A, S))
    ensures
        state_bind(m, |a: A| state_unit::<S, A>(a)) == m,
{
    assert(state_bind(m, |a: A| state_unit::<S, A>(a)) =~= m);
}

/// Associativity for state computations.
pub proof fn law_state_associativity<S, A, U, V>(
    m: spec_fn(S) -> (A, S),
    k: spec_fn(A) -> spec_fn(S) -> (U, S),
    h: spec_fn(U) -> spec_fn(S) -> (V, S),
)
    ensures
        state_bind(state_bind(m, k), h) == state_bind(m, |a: A| state_bind(k(a), h)),
{
    assert(state_bind(state_bind(m, k), h) =~= state_bind(m, |a: A| state_bind(k(a), h)));
}

/// Reader monad — represents computations that read from a shared
/// environment. The computation is a closure of type `F`; the constructors
/// are reached through `Reader::<R, A>`.
pub struct Reader<R, A, F = ()> {
    pub run: F,
    pub marker: PhantomData<(R, A)>,
}

/// Bind on reader computations given as spec functions: read with `m`, and
/// run the computation that `k` makes of its value on the same environment.
pub open spec fn reader_bind<R, A, B>(m: spec_fn(R) -> A, k: spec_fn(A) -> spec_fn(R) -> B) -> spec_fn(R) -> B {
    |e: R| k(m(e))(e)
}

/// The reader computation that returns `a` whatever the environment.
pub open spec fn reader_unit<R, A>(a: A) -> spec_fn(R) -> A {
    |e: R| a
}

/// `run` may be called on `env`, `f` on every value it may give, and each
/// resulting computation on `env`.
pub open spec fn reader_bind_ready<R, A, B, F: Fn(&R) -> A, G: Fn(&R) -> B, H: Fn(A) -> Reader<R, B, G>>(run: F, f: H, env: &R) -> bool {
    &&& run.requires((env,))
    &&& forall|a: A| #[trigger] run.ensures((env,), a) ==> f.requires((a,)) && forall|rd: Reader<R, B, G>|
        #[trigger] f.ensures((a,), rd) ==> rd.run.requires((env,))
}

/// `out` is what reading with `run`, then running the computation that `f`
/// makes of its value, may give on `env`.
pub open spec fn reader_bind_ran<R, A, B, F: Fn(&R) -> A, G: Fn(&R) -> B, H: Fn(A) -> Reader<R, B, G>>(run: F, f: H, env: &R, out: B) -> bool {
    exists|a: A, rd: Reader<R, B, G>|
        #[trigger] run.ensures((env,), a) && #[trigger] f.ensures((a,), rd) && rd.run.ensures((env,), out)
}

/// Every result of `run` is given by `m`, and every result of each
/// computation that `f` makes of a value `a` is given by `k(a)`.
pub open spec fn reader_models<R, A, B, F: Fn(&R) -> A, G: Fn(&R) -> B, H: Fn(A) -> Reader<R, B, G>>(
    run: F,
    f: H,
    m: spec_fn(R) -> A,
    k: spec_fn(A) -> spec_fn(R) -> B,
) -> bool {
    &&& forall|e: &R, o: A| #[trigger] run.ensures((e,), o) ==> o == m(*e)
    &&& forall|a: A, rd: Reader<R, B, G>, e: &R, o: B|
        #[trigger] f.ensures((a,), rd) && #[trigger] rd.run.ensures((e,), o) ==> o == k(a)(*e)
}

impl<R: Clone, A: Clone> Reader<R, A, ()> {
    /// The computation that returns (a clone of) `value` whatever the
    /// environment.
    pub fn return_(value: A) -> (r: Reader<R, A, impl Fn(&R) -> A>)
        ensures
            forall|e: &R| #[trigger] r.run.requires((e,)),
            forall|e: &R, out: A| #[trigger] r.run.ensures((e,), out) ==> cloned(value, out),
    {
        let v = value;
        let gv: Ghost<A> = Ghost(v);
        let run = move |_env: &R| -> (out: A)
            ensures
                cloned(gv@, out),
            {
                v.clone()
            };
        Reader { run, marker: PhantomData }
    }

    /// The computation that returns (a clone of) the environment.
    pub fn ask() -> (r: Reader<R, R, impl Fn(&R) -> R>)
        ensures
            forall|e: &R| #[trigger] r.run.requires((e,)),
            forall|e: &R, out: R| #[trigger] r.run.ensures((e,), out) ==> cloned(*e, out),
    {
        let run = |env: &R| -> (out: R)
            ensures
                cloned(*env, out),
            {
                env.clone()
            };
        Reader { run, marker: PhantomData }
    }
}

impl<R, A, F: Fn(&R) -> A> Reader<R, A, F> {
    /// Read with `self`, and run the computation `f` makes of its value on
    /// the same environment.
    pub fn bind<B, G: Fn(&R) -> B, H: Fn(A) -> Reader<R, B, G>>(self, f: H) -> (r: Reader<R, B, impl Fn(&R) -> B>)
        ensures
            forall|e: &R| reader_bind_ready(self.run, f, e) ==> #[trigger] r.run.requires((e,)),
            forall|e: &R, out: B| #[trigger] r.run.ensures((e,), out) ==> reader_bind_ran(self.run, f, e, out),
            forall|m: spec_fn(R) -> A, k: spec_fn(A) -> spec_fn(R) -> B|
                #[trigger] reader_models(self.run, f, m, k) ==> forall|e: &R, out: B|
                    #[trigger] r.run.ensures((e,), out) ==> out == reader_bind(m, k)(*e),
    {
        let first = self.run;
        let gfirst: Ghost<F> = Ghost(first);
        let gf: Ghost<H> = Ghost(f);
        let run = move |env: &R| -> (out: B)
            requires
                reader_bind_ready(gfirst@, gf@, env),
            ensures
                reader_bind_ran(gfirst@, gf@, env, out),
            {
                let a = first(env);
                let rd = f(a);
                (rd.run)(env)
            };
        Reader { run, marker: PhantomData }
    }

    /// The value that the computation gives on `env`.
    pub fn eval(&self, env: &R) -> (r: A)
        requires
            self.run.requires((env,)),
        ensures
            self.run.ensures((env,), r),
    {
        (self.run)(env)
    }
}

/// Left identity for reader computations: returning `a`, then `k`, is `k(a)`.
pub proof fn law_reader_left_identity<R, A, B>(a: A, k: spec_fn(A) -> spec_fn(R) -> B)
    ensures
        reader_bind(reader_unit::<R, A>(a), k) == k(a),
{
    assert(reader_bind(reader_unit::<R, A>(a), k) =~= k(a));
}

/// Right identity for reader computations: binding to `return_` changes
/// nothing.
pub proof fn law_reader_right_identity<R, A>(m: spec_fn(R) -> A)
    ensures
        reader_bind(m, |a: A| reader_unit::<R, A>(a)) == m,
{
    assert(reader_bind(m, |a: A| reader_unit::<R, A>(a)) =~= m);
}

/// Associativity for reader computations.
pub proof fn law_reader_associativity<R, A, B, C>(
    m: spec_fn(R) -> A,
    k: spec_fn(A) -> spec_fn(R) -> B,
    h: spec_fn(B) -> spec_fn(R) -> C,
)
    ensures
        reader_bind(reader_bind(m, k), h) == reader_bind(m, |a: A| reader_bind(k(a), h)),
{
    assert(reader_bind(reader_bind(m, k), h) =~= reader_bind(m, |a: A| reader_bind(k(a), h)));
}

/// Writer monad — represents computations that produce a log/trace.
#[derive(Debug, Clone, PartialEq)]
pub struct Writer<W, A> {
    pub value: A,
    pub log: Vec<W>,
}

/// Bind on writer values given as (value, log) pairs, for a function given as
/// a spec function: the value is the function's, the log is the two logs
/// joined.
pub open spec fn writer_bind<W, A, U>(w: (A, Seq<W>), f: spec_fn(A) -> (U, Seq<W>)) -> (U, Seq<W>) {
    (f(w.0).0, w.1 + f(w.0).1)
}

impl<W: Clone, A: Clone> Writer<W, A> {
    pub fn return_(value: A) -> (r: Self)
        ensures
            r.value == value,
            r.log@ == Seq::<W>::empty(),
    {
        Writer { value, log: Vec::new() }
    }

    /// Runs `f` on the value and appends its log to this one.
    pub fn bind<U>(self, f: impl Fn(A) -> Writer<W, U>) -> (r: Writer<W, U>)
        requires
            f.requires((self.value,)),
        ensures
            exists|w: Writer<W, U>|
                f.ensures((self.value,), w) && r.value == w.value && r.log@ == self.log@ + w.log@,
    {
        let Writer { value, log: log1 } = self;
        let Writer { value: new_val, log: mut log2 } = f(value);
        let mut combined = log1;
        combined.append(&mut log2);
        Writer { value: new_val, log: combined }
    }

    pub fn tell(entry: W) -> (r: Writer<W, ()>)
        ensures
            r.log@ == seq![entry],
    {
        let mut log: Vec<W> = Vec::new();
        log.push(entry);
        Writer { value: (), log }
    }
}

/// Left identity: binding a value with an empty log to `f` is `f(a)`.
pub proof fn law_writer_left_identity<W, A, U>(a: A, f: spec_fn(A) -> (U, Seq<W>))
    ensures
        writer_bind((a, Seq::<W>::empty()), f) == f(a),
{
    assert(Seq::<W>::empty() + f(a).1 =~= f(a).1);
}

/// Right identity: binding to "return with an empty log" changes nothing.
pub proof fn law_writer_right_identity<W, A>(w: (A, Seq<W>))
    ensures
        writer_bind(w, |x: A| (x, Seq::<W>::empty())) == w,
{
    assert(w.1 + Seq::<W>::empty() =~= w.1);
}

/// Associativity: logs are joined in the same order either way.
pub proof fn law_writer_associativity<W, A, U, V>(
    w: (A, Seq<W>),
    f: spec_fn(A) -> (U, Seq<W>),
    g: spec_fn(U) -> (V, Seq<W>),
)
    ensures
        writer_bind(writer_bind(w, f), g) == writer_bind(w, |x: A| writer_bind(f(x), g)),
{
    assert(w.1 + f(w.0).1 + g(f(w.0).0).1 =~= w.1 + (f(w.0).1 + g(f(w.0).0).1));
}

/// Monad transformer stack — for composing multiple monadic effects.
#[derive(Debug)]
pub struct MonadStack {
    pub name: String,
    pub layers: Vec<MonadKind>,
}

impl MonadStack {
    pub fn new(name: &str) -> (r: Self)
        ensures
            r.name@ == name@,
            r.layers@ == Seq::<MonadKind>::empty(),
    {
        MonadStack { name: String::from_str(name), layers: Vec::new() }
    }

    pub fn push(self, m: MonadKind) -> (r: Self)
        ensures
            r.name == self.name,
            r.layers@ == self.layers@.push(m),
    {
        let mut s = self;
        s.layers.push(m);
        s
    }
}

} // verus!
