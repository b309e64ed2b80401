use std::time::Instant;

use vstd::prelude::*;

verus! {

#[verifier::external_type_specification]
#[verifier::external_body]
pub struct ExInstant(Instant);

/// `Instant::now`: the current time; nothing is stated of it.
#[verifier::external_body]
fn now() -> Instant {
    Instant::now()
}

/// Runs `f`, timing it as the section `name`, and returns what `f` returns.
pub fn measure<T>(name: &str, f: impl FnOnce() -> T) -> (r: T)
    requires
        f.requires(()),
    ensures
        f.ensures((), r),
{
    let tt = now();
    let result = f();

    metric(name, tt);

    result
}

/// Reports the time since `tt` under the name `metric`; without the
/// `metrics` feature of the renderer nothing is reported.
pub fn metric(metric: &str, tt: Instant) {
}

} // verus!
