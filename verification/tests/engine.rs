use simboli_thread::testing::{MyOuputTrait, MyTesting, MyTestingParams};

struct Wrapped(u32);

impl MyOuputTrait for Wrapped {
    type Output = u32;

    fn get_value(self) -> u32 {
        self.0
    }
}

struct Doubling(u32);

impl MyTestingParams for Doubling {
    type Out = Wrapped;

    fn exec(self) -> Wrapped {
        Wrapped(self.0 * 2)
    }
}

#[test]
fn the_engine_returns_what_the_payload_produced() {
    let engine = MyTesting::init();
    assert_eq!(engine.exec_the_fn(Doubling(21)).get_value(), 42);
    assert_eq!(engine.exec_the_fn(Doubling(0)).get_value(), 0);
}
