//! A minimal engine that runs whatever it is handed, for trying out payloads
//! without a pool.

use vstd::prelude::*;

verus! {

/// A value that can be unwrapped into what it stands for.
pub trait MyOuputTrait {
    type Output;

    fn get_value(self) -> Self::Output;
}

/// A payload the engine can run.
pub trait MyTestingParams {
    type Out: MyOuputTrait;

    fn exec(self) -> Self::Out;
}

/// The engine; it has no state.
pub struct MyTesting {}

impl MyTesting {
    /// A new engine.
    pub fn init() -> (r: MyTesting)
        ensures
            r == (MyTesting {  }),
    {
        MyTesting {  }
    }

    /// Runs `f` and returns what it produced.
    pub fn exec_the_fn<F>(&self, f: F) -> (r: F::Out) where F: MyTestingParams
        ensures
            call_ensures(F::exec, (f,), r),
    {
        f.exec()
    }
}

} // verus!
