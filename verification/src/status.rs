//! The verdict on a goal, and the two ways of combining verdicts.
//!
//! A goal is `Unsat` once it is refuted, `Sat` once it is known that it
//! cannot be refuted, and `Unknown` until then. The sum of verdicts is that
//! of a goal with several alternative inferences: one refuted alternative
//! refutes the goal. The product is that of one inference with several
//! members: all members must be refuted to refute along this inference.

use vstd::prelude::*;

verus! {

#[derive(Clone, Copy, Debug, PartialEq, Eq, Structural)]
pub enum Status {
    Sat,
    Unsat,
    Unknown,
}

impl Default for Status {
    fn default() -> (status: Self)
        ensures
            status == Status::Unknown,
    {
        Status::Unknown
    }
}

impl Status {
    /// The sum of two verdicts: `Unsat` if either is, else `Unknown` if
    /// either is, else `Sat`.
    pub open spec fn plus(self, other: Status) -> Status {
        if self == Status::Unsat || other == Status::Unsat {
            Status::Unsat
        } else if self == Status::Unknown || other == Status::Unknown {
            Status::Unknown
        } else {
            Status::Sat
        }
    }

    /// The product of two verdicts: `Sat` if either is, else `Unknown` if
    /// either is, else `Unsat`.
    pub open spec fn times(self, other: Status) -> Status {
        if self == Status::Sat || other == Status::Sat {
            Status::Sat
        } else if self == Status::Unknown || other == Status::Unknown {
            Status::Unknown
        } else {
            Status::Unsat
        }
    }

    /// Whether the verdict is final.
    pub open spec fn known(self) -> bool {
        self != Status::Unknown
    }

    /// Whether the verdict is `Sat` or `Unsat`.
    pub fn is_known(self) -> (known: bool)
        ensures
            known == self.known(),
    {
        match self {
            Status::Unknown => false,
            _ => true,
        }
    }

    /// The sum of a sequence of verdicts, starting from `Sat`.
    pub open spec fn sum_of(statuses: Seq<Status>) -> Status
        decreases statuses.len(),
    {
        if statuses.len() == 0 {
            Status::Sat
        } else {
            Status::sum_of(statuses.drop_last()).plus(statuses.last())
        }
    }

    /// The product of a sequence of verdicts, starting from `Unsat`.
    pub open spec fn product_of(statuses: Seq<Status>) -> Status
        decreases statuses.len(),
    {
        if statuses.len() == 0 {
            Status::Unsat
        } else {
            Status::product_of(statuses.drop_last()).times(statuses.last())
        }
    }

    /// The sum of the verdicts in `statuses`.
    pub fn sum(statuses: &Vec<Status>) -> (total: Status)
        ensures
            total == Status::sum_of(statuses@),
    {
        let mut total = Status::Sat;
        let mut i: usize = 0;
        while i < statuses.len()
            invariant
                i <= statuses.len(),
                total == Status::sum_of(statuses@.subrange(0, i as int)),
            decreases statuses.len() - i,
        {
            proof {
                assert(statuses@.subrange(0, i + 1).drop_last() =~= statuses@.subrange(
                    0,
                    i as int,
                ));
            }
            total = total + statuses[i];
            i += 1;
        }
        proof {
            assert(statuses@.subrange(0, statuses.len() as int) =~= statuses@);
        }
        total
    }

    /// The product of the verdicts in `statuses`.
    pub fn product(statuses: &Vec<Status>) -> (total: Status)
        ensures
            total == Status::product_of(statuses@),
    {
        let mut total = Status::Unsat;
        let mut i: usize = 0;
        while i < statuses.len()
            invariant
                i <= statuses.len(),
                total == Status::product_of(statuses@.subrange(0, i as int)),
            decreases statuses.len() - i,
        {
            proof {
                assert(statuses@.subrange(0, i + 1).drop_last() =~= statuses@.subrange(
                    0,
                    i as int,
                ));
            }
            total = total * statuses[i];
            i += 1;
        }
        proof {
            assert(statuses@.subrange(0, statuses.len() as int) =~= statuses@);
        }
        total
    }
}

impl core::ops::Add for Status {
    type Output = Status;

    fn add(self, other: Status) -> (total: Status) {
        match (self, other) {
            (Status::Unsat, _) | (_, Status::Unsat) => Status::Unsat,
            (Status::Unknown, _) | (_, Status::Unknown) => Status::Unknown,
            (Status::Sat, Status::Sat) => Status::Sat,
        }
    }
}

impl vstd::std_specs::ops::AddSpecImpl for Status {
    open spec fn obeys_add_spec() -> bool {
        true
    }

    open spec fn add_req(self, other: Status) -> bool {
        true
    }

    open spec fn add_spec(self, other: Status) -> Status {
        self.plus(other)
    }
}

impl core::ops::Mul for Status {
    type Output = Status;

    fn mul(self, other: Status) -> (total: Status) {
        match (self, other) {
            (Status::Sat, _) | (_, Status::Sat) => Status::Sat,
            (Status::Unknown, _) | (_, Status::Unknown) => Status::Unknown,
            (Status::Unsat, Status::Unsat) => Status::Unsat,
        }
    }
}

impl vstd::std_specs::ops::MulSpecImpl for Status {
    open spec fn obeys_mul_spec() -> bool {
        true
    }

    open spec fn mul_req(self, other: Status) -> bool {
        true
    }

    open spec fn mul_spec(self, other: Status) -> Status {
        self.times(other)
    }
}

/// `Sat` is the identity of the sum, which is commutative and associative.
pub proof fn lemma_sum_monoid(a: Status, b: Status, c: Status)
    ensures
        Status::Sat.plus(a) == a,
        a.plus(Status::Sat) == a,
        a.plus(b) == b.plus(a),
        a.plus(b).plus(c) == a.plus(b.plus(c)),
{
}

/// `Unsat` is the identity of the product, which is commutative and
/// associative.
pub proof fn lemma_product_monoid(a: Status, b: Status, c: Status)
    ensures
        Status::Unsat.times(a) == a,
        a.times(Status::Unsat) == a,
        a.times(b) == b.times(a),
        a.times(b).times(c) == a.times(b.times(c)),
{
}

/// A sum is `Unsat` exactly when one of its terms is, and `Sat` exactly when
/// all of them are.
pub proof fn lemma_sum_of(statuses: Seq<Status>)
    ensures
        Status::sum_of(statuses) == Status::Unsat <==> exists|i: int|
            0 <= i < statuses.len() && statuses[i] == Status::Unsat,
        Status::sum_of(statuses) == Status::Sat <==> forall|i: int|
            0 <= i < statuses.len() ==> statuses[i] == Status::Sat,
    decreases statuses.len(),
{
    if statuses.len() > 0 {
        let front = statuses.drop_last();
        lemma_sum_of(front);
        let n = statuses.len() - 1;
        if exists|i: int| 0 <= i < front.len() && front[i] == Status::Unsat {
            let i = choose|i: int| 0 <= i < front.len() && front[i] == Status::Unsat;
            assert(statuses[i] == Status::Unsat);
        }
        if exists|i: int| 0 <= i < statuses.len() && statuses[i] == Status::Unsat {
            let i = choose|i: int| 0 <= i < statuses.len() && statuses[i] == Status::Unsat;
            if i < n {
                assert(front[i] == Status::Unsat);
            }
        }
        if forall|i: int| 0 <= i < statuses.len() ==> statuses[i] == Status::Sat {
            assert forall|i: int| 0 <= i < front.len() implies front[i] == Status::Sat by {
                assert(statuses[i] == Status::Sat);
            }
        }
        if Status::sum_of(statuses) == Status::Sat {
            assert forall|i: int| 0 <= i < statuses.len() implies statuses[i] == Status::Sat by {
                if i < n {
                    assert(front[i] == Status::Sat);
                }
            }
        }
    }
}

/// A product is `Sat` exactly when one of its factors is, and `Unsat` exactly
/// when all of them are.
pub proof fn lemma_product_of(statuses: Seq<Status>)
    ensures
        Status::product_of(statuses) == Status::Sat <==> exists|i: int|
            0 <= i < statuses.len() && statuses[i] == Status::Sat,
        Status::product_of(statuses) == Status::Unsat <==> forall|i: int|
            0 <= i < statuses.len() ==> statuses[i] == Status::Unsat,
    decreases statuses.len(),
{
    if statuses.len() > 0 {
        let front = statuses.drop_last();
        lemma_product_of(front);
        let n = statuses.len() - 1;
        if exists|i: int| 0 <= i < front.len() && front[i] == Status::Sat {
            let i = choose|i: int| 0 <= i < front.len() && front[i] == Status::Sat;
            assert(statuses[i] == Status::Sat);
        }
        if exists|i: int| 0 <= i < statuses.len() && statuses[i] == Status::Sat {
            let i = choose|i: int| 0 <= i < statuses.len() && statuses[i] == Status::Sat;
            if i < n {
                assert(front[i] == Status::Sat);
            }
        }
        if forall|i: int| 0 <= i < statuses.len() ==> statuses[i] == Status::Unsat {
            assert forall|i: int| 0 <= i < front.len() implies front[i] == Status::Unsat by {
                assert(statuses[i] == Status::Unsat);
            }
        }
        if Status::product_of(statuses) == Status::Unsat {
            assert forall|i: int| 0 <= i < statuses.len() implies statuses[i]
                == Status::Unsat by {
                if i < n {
                    assert(front[i] == Status::Unsat);
                }
            }
        }
    }
}

} // verus!
