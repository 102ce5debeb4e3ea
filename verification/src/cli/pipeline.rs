//! The stages a compile run can record.
use vstd::prelude::*;

verus! {

/// A pipeline stage that can be rendered.
#[derive(Debug, Clone, Copy, PartialEq, Eq, Structural)]
pub enum Stage {
    /// The imperative circuit IR.
    QcIr,
    /// The dependency graph.
    QcoIr,
    /// Emitted QIR text.
    Qir,
}

impl Stage {
    /// Every stage, in pipeline order: the default when none is chosen.
    pub fn all() -> (r: Vec<Stage>)
        ensures
            r@ == seq![Stage::QcIr, Stage::QcoIr, Stage::Qir],
    {
        let v = vec![Stage::QcIr, Stage::QcoIr, Stage::Qir];
        proof {
            assert(v@ =~= seq![Stage::QcIr, Stage::QcoIr, Stage::Qir]);
        }
        v
    }

    /// The stage's name as the command line spells it.
    pub fn label(self) -> (r: &'static str)
        ensures
            r@ == match self {
                Stage::QcIr => "qc-ir"@,
                Stage::QcoIr => "qco-ir"@,
                Stage::Qir => "qir"@,
            },
    {
        match self {
            Stage::QcIr => "qc-ir",
            Stage::QcoIr => "qco-ir",
            Stage::Qir => "qir",
        }
    }
}

} // verus!
