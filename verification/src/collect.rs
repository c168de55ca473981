//! Sequences of fallible steps.

use vstd::prelude::*;

verus! {

/// The first `count` outcomes of `step` as one outcome: every value, or the
/// first error.
pub open spec fn collect<A, E>(count: nat, step: spec_fn(int) -> Result<A, E>) -> Result<
    Seq<A>,
    E,
>
    decreases count,
{
    if count == 0 {
        Ok(Seq::empty())
    } else {
        match collect((count - 1) as nat, step) {
            Err(error) => Err(error),
            Ok(values) => match step(count - 1) {
                Err(error) => Err(error),
                Ok(value) => Ok(values.push(value)),
            },
        }
    }
}

/// The outcome is every value when no step fails, and the error of a failing
/// step otherwise.
pub proof fn lemma_collect<A, E>(count: nat, step: spec_fn(int) -> Result<A, E>)
    ensures
        collect(count, step) is Ok <==> forall|i: int| 0 <= i < count ==> #[trigger] step(i) is Ok,
        collect(count, step) matches Ok(values) ==> values.len() == count && forall|i: int|
            0 <= i < count ==> #[trigger] step(i) == Ok::<A, E>(values[i]),
        collect(count, step) matches Err(error) ==> exists|i: int|
            0 <= i < count && #[trigger] step(i) == Err::<A, E>(error),
    decreases count,
{
    if count > 0 {
        lemma_collect((count - 1) as nat, step);
        assert(step(count - 1) is Ok || step(count - 1) is Err);
    }
}

/// A failing step inside a longer run fails the run with the same error.
pub proof fn lemma_collect_fails<A, E>(
    shorter: nat,
    count: nat,
    step: spec_fn(int) -> Result<A, E>,
)
    requires
        shorter <= count,
        collect(shorter, step) is Err,
    ensures
        collect(count, step) == collect(shorter, step),
    decreases count,
{
    if shorter < count {
        lemma_collect_fails(shorter, (count - 1) as nat, step);
    }
}

/// The outcome fails with the error of the first step that fails.
pub proof fn law_first_failing_step_decides<A, E>(count: nat, step: spec_fn(int) -> Result<A, E>)
    requires
        collect(count, step) is Err,
    ensures
        exists|i: int|
            {
                &&& 0 <= i < count
                &&& #[trigger] step(i) == Err::<A, E>(collect(count, step)->Err_0)
                &&& forall|j: int| 0 <= j < i ==> #[trigger] step(j) is Ok
            },
    decreases count,
{
    if count > 0 {
        let fewer = (count - 1) as nat;
        if collect(fewer, step) is Err {
            law_first_failing_step_decides(fewer, step);
            let i = choose|i: int|
                {
                    &&& 0 <= i < fewer
                    &&& #[trigger] step(i) == Err::<A, E>(collect(fewer, step)->Err_0)
                    &&& forall|j: int| 0 <= j < i ==> #[trigger] step(j) is Ok
                };
            assert(step(i) == Err::<A, E>(collect(count, step)->Err_0));
        } else {
            lemma_collect(fewer, step);
            assert(step(count - 1) == Err::<A, E>(collect(count, step)->Err_0));
        }
    }
}

} // verus!
