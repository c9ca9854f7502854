use vstd::prelude::*;

verus! {

/// What a symbol makes the turtle do while a sequence is scanned.
#[derive(Clone, Copy, PartialEq, Eq, Structural, Debug)]
pub enum Behaviour {
    DrawForward,
    RotateLeft,
    RotateRight,
    Branch,
    BranchStop,
}

impl Behaviour {
    /// The label under which the behaviour is printed.
    pub open spec fn label_spec(self) -> Seq<char> {
        match self {
            Behaviour::DrawForward => "Create"@,
            Behaviour::RotateLeft => "RotateLeft"@,
            Behaviour::RotateRight => "RotateRight"@,
            Behaviour::Branch => "Branch"@,
            Behaviour::BranchStop => "BranchStop"@,
        }
    }

    /// The label under which the behaviour is printed.
    pub fn label(&self) -> (text: &'static str)
        ensures
            text@ == self.label_spec(),
    {
        match self {
            Behaviour::DrawForward => "Create",
            Behaviour::RotateLeft => "RotateLeft",
            Behaviour::RotateRight => "RotateRight",
            Behaviour::Branch => "Branch",
            Behaviour::BranchStop => "BranchStop",
        }
    }
}

} // verus!
