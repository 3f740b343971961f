//! The algorithms a user can choose from.

use vstd::prelude::*;

verus! {

/// A sequencing algorithm of the library.
#[derive(Debug, Clone, Copy, PartialEq, Eq, Structural)]
pub enum Algorithm {
    /// Johnson's rule (exact for two machines).
    JohnsonClassic,
    /// Ascending time on the first machine.
    JohnsonGen1,
    /// Descending time on the last machine.
    JohnsonGen2,
    /// Descending bottleneck machine.
    JohnsonGen3,
    /// Descending total time.
    JohnsonGen4,
    /// Signed priority index (two machines).
    PriorityRule,
    /// Every permutation.
    BruteForce,
    /// Three candidates from partial sums.
    PetrovSokolitsyn,
    /// Best-first branch and bound.
    BranchAndBound,
}

impl Default for Algorithm {
    fn default() -> (r: Algorithm)
        ensures
            r == Algorithm::JohnsonClassic,
    {
        Algorithm::JohnsonClassic
    }
}

impl Algorithm {
    /// Every algorithm, in menu order.
    pub fn all() -> (r: Vec<Algorithm>)
        ensures
            r@ == seq![
                Algorithm::JohnsonClassic,
                Algorithm::JohnsonGen1,
                Algorithm::JohnsonGen2,
                Algorithm::JohnsonGen3,
                Algorithm::JohnsonGen4,
                Algorithm::PriorityRule,
                Algorithm::BruteForce,
                Algorithm::PetrovSokolitsyn,
                Algorithm::BranchAndBound,
            ],
    {
        let r = vec![
            Algorithm::JohnsonClassic,
            Algorithm::JohnsonGen1,
            Algorithm::JohnsonGen2,
            Algorithm::JohnsonGen3,
            Algorithm::JohnsonGen4,
            Algorithm::PriorityRule,
            Algorithm::BruteForce,
            Algorithm::PetrovSokolitsyn,
            Algorithm::BranchAndBound,
        ];
        assert(r@ =~= seq![
            Algorithm::JohnsonClassic,
            Algorithm::JohnsonGen1,
            Algorithm::JohnsonGen2,
            Algorithm::JohnsonGen3,
            Algorithm::JohnsonGen4,
            Algorithm::PriorityRule,
            Algorithm::BruteForce,
            Algorithm::PetrovSokolitsyn,
            Algorithm::BranchAndBound,
        ]);
        r
    }

    /// The name shown to a user.
    pub open spec fn label_text(self) -> Seq<char> {
        match self {
            Algorithm::JohnsonClassic => "Алгоритм Джонсона"@,
            Algorithm::JohnsonGen1 => "Джонсон мин. время на 1-м станке"@,
            Algorithm::JohnsonGen2 => "Джонсон макс. время на последнем станке"@,
            Algorithm::JohnsonGen3 => "Джонсон приоритет «узкого места»"@,
            Algorithm::JohnsonGen4 => "Джонсон макс. суммарное время"@,
            Algorithm::PriorityRule => "Метод приоритетов"@,
            Algorithm::BruteForce => "Метод полного перебора"@,
            Algorithm::PetrovSokolitsyn => "Метод Петрова-Соколицына"@,
            Algorithm::BranchAndBound => "Метод ветвей и границ"@,
        }
    }

    /// The name shown to a user.
    pub fn label(&self) -> (r: &'static str)
        ensures
            r@ == self.label_text(),
    {
        match self {
            Algorithm::JohnsonClassic => "Алгоритм Джонсона",
            Algorithm::JohnsonGen1 => "Джонсон мин. время на 1-м станке",
            Algorithm::JohnsonGen2 => "Джонсон макс. время на последнем станке",
            Algorithm::JohnsonGen3 => "Джонсон приоритет «узкого места»",
            Algorithm::JohnsonGen4 => "Джонсон макс. суммарное время",
            Algorithm::PriorityRule => "Метод приоритетов",
            Algorithm::BruteForce => "Метод полного перебора",
            Algorithm::PetrovSokolitsyn => "Метод Петрова-Соколицына",
            Algorithm::BranchAndBound => "Метод ветвей и границ",
        }
    }
}

} // verus!
