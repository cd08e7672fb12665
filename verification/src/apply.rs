//! Carrying the operations out, one after another.
//!
//! Nothing here touches the file system. The [`Applier`] says what is to be
//! done next and is told how it went. It hands the operations out in their
//! order, each one only when all before it have gone well, and after a failure
//! it is gone: what was done stays done, and what was not begun is not begun.

use crate::quote::{path_debug, quote_path};
use crate::rows::{copy_bytes, Operation, Verdict};
use vstd::prelude::*;
use vstd::string::StringExecFns;

verus! {

/// One change to the file system.
#[derive(Debug, PartialEq, Eq)]
pub enum Action {
    /// Remove the file at this path, and nothing else.
    RemoveFile(Vec<u8>),
    /// Remove the directory at this path with all that it holds.
    RemoveTree(Vec<u8>),
    /// Move what is at the first path to the second path.
    Move(Vec<u8>, Vec<u8>),
}

/// The model of an [`Action`].
pub enum Step {
    RemoveFile(Seq<u8>),
    RemoveTree(Seq<u8>),
    Move(Seq<u8>, Seq<u8>),
}

impl View for Action {
    type V = Step;

    open spec fn view(&self) -> Step {
        match self {
            Action::RemoveFile(path) => Step::RemoveFile(path@),
            Action::RemoveTree(path) => Step::RemoveTree(path@),
            Action::Move(from, to) => Step::Move(from@, to@),
        }
    }
}

/// What an entry is called in a message.
pub open spec fn kind_text(is_dir: bool) -> Seq<char> {
    if is_dir {
        "directory"@
    } else {
        "file"@
    }
}

/// The words for a removal, done or failed. `quoted` shows the path.
pub open spec fn removal_text(failed: bool, is_dir: bool, quoted: Seq<char>) -> Seq<char> {
    (if failed {
        "Error deleting "@
    } else {
        "Removed "@
    }) + kind_text(is_dir) + " "@ + quoted
}

/// The words for a move, done or failed. `from` and `to` show the two paths.
pub open spec fn move_text(failed: bool, is_dir: bool, from: Seq<char>, to: Seq<char>) -> Seq<
    char,
> {
    (if failed {
        "Error moving "@
    } else {
        "Moved "@
    }) + kind_text(is_dir) + " "@ + from + " to "@ + to
}

impl Verdict {
    /// The change to the file system that the verdict asks for. A directory is
    /// removed with all that it holds, a file alone. The path of a move is
    /// taken as the row gave it. To keep an entry asks for nothing.
    pub open spec fn step(self) -> Option<Step> {
        match self {
            Verdict::Delete(entry) => Some(
                if entry.is_dir {
                    Step::RemoveTree(entry.path)
                } else {
                    Step::RemoveFile(entry.path)
                },
            ),
            Verdict::Rename(entry, to) => Some(Step::Move(entry.path, to)),
            Verdict::Keep(_) => None,
        }
    }

    /// The line that confirms the change, once it is made.
    pub open spec fn confirmation(self) -> Option<Seq<char>> {
        self.words(false)
    }

    /// The words that say which change has failed.
    pub open spec fn failure(self) -> Option<Seq<char>> {
        self.words(true)
    }

    /// The words for the change, done or failed.
    pub open spec fn words(self, failed: bool) -> Option<Seq<char>> {
        match self {
            Verdict::Delete(entry) => Some(
                removal_text(failed, entry.is_dir, path_debug(entry.path)),
            ),
            Verdict::Rename(entry, to) => Some(
                move_text(failed, entry.is_dir, path_debug(entry.path), path_debug(to)),
            ),
            Verdict::Keep(_) => None,
        }
    }
}

/// The first position from `from` on at which the plan asks for a change, or
/// the length of the plan where it asks for none.
pub open spec fn next_change(plan: Seq<Verdict>, from: int) -> int
    decreases plan.len() - from,
{
    if from < 0 || from >= plan.len() {
        plan.len() as int
    } else if plan[from] is Keep {
        next_change(plan, from + 1)
    } else {
        from
    }
}

/// What `next_change` is: every verdict between `from` and it keeps its
/// entry, and the verdict at it, if there is one, does not.
pub proof fn lemma_next_change(plan: Seq<Verdict>, from: int)
    requires
        0 <= from <= plan.len(),
    ensures
        from <= next_change(plan, from) <= plan.len(),
        forall|i: int| from <= i < next_change(plan, from) ==> (#[trigger] plan[i]) is Keep,
        next_change(plan, from) < plan.len() ==> !(plan[next_change(plan, from)] is Keep),
    decreases plan.len() - from,
{
    if from < plan.len() && plan[from] is Keep {
        lemma_next_change(plan, from + 1);
    }
}

/// The word for an entry in a message.
fn kind_word(is_dir: bool) -> (r: &'static str)
    ensures
        r@ == kind_text(is_dir),
{
    if is_dir {
        "directory"
    } else {
        "file"
    }
}

/// The words for a removal, done or failed. `quoted` shows the path.
pub fn removal_message(failed: bool, is_dir: bool, quoted: &str) -> (r: String)
    ensures
        r@ == removal_text(failed, is_dir, quoted@),
{
    let mut r = String::from_str(
        if failed {
            "Error deleting "
        } else {
            "Removed "
        },
    );
    r.append(kind_word(is_dir));
    r.append(" ");
    r.append(quoted);
    r
}

/// The words for a move, done or failed. `from` and `to` show the two paths.
pub fn move_message(failed: bool, is_dir: bool, from: &str, to: &str) -> (r: String)
    ensures
        r@ == move_text(failed, is_dir, from@, to@),
{
    let mut r = String::from_str(
        if failed {
            "Error moving "
        } else {
            "Moved "
        },
    );
    r.append(kind_word(is_dir));
    r.append(" ");
    r.append(from);
    r.append(" to ");
    r.append(to);
    r
}

impl Operation {
    /// The change to the file system that the operation asks for, or `None`
    /// where it asks for none.
    pub fn action(&self) -> (r: Option<Action>)
        ensures
            match r {
                Some(action) => self@.step() == Some(action@),
                None => self@.step().is_none(),
            },
    {
        match self {
            Operation::Delete(entry) => {
                let path = copy_bytes(entry.name.as_slice());
                if entry.is_dir {
                    Some(Action::RemoveTree(path))
                } else {
                    Some(Action::RemoveFile(path))
                }
            },
            Operation::Rename(entry, to) => Some(
                Action::Move(copy_bytes(entry.name.as_slice()), copy_bytes(to.as_slice())),
            ),
            Operation::Keep(_) => None,
        }
    }

    /// The words for the change that the operation asks for, done or failed.
    fn words(&self, failed: bool) -> (r: Option<String>)
        ensures
            match r {
                Some(line) => self@.words(failed) == Some(line@),
                None => self@.words(failed).is_none(),
            },
    {
        match self {
            Operation::Delete(entry) => {
                let quoted = quote_path(entry.name.as_slice());
                Some(removal_message(failed, entry.is_dir, quoted.as_str()))
            },
            Operation::Rename(entry, to) => {
                let from = quote_path(entry.name.as_slice());
                let to = quote_path(to.as_slice());
                Some(move_message(failed, entry.is_dir, from.as_str(), to.as_str()))
            },
            Operation::Keep(_) => None,
        }
    }

    /// The line that confirms the change, once it is made, or `None` where
    /// the operation asks for no change.
    pub fn confirmation(&self) -> (r: Option<String>)
        ensures
            match r {
                Some(line) => self@.confirmation() == Some(line@),
                None => self@.confirmation().is_none(),
            },
    {
        self.words(false)
    }

    /// The words that say which change has failed, or `None` where the
    /// operation asks for no change.
    pub fn failure(&self) -> (r: Option<String>)
        ensures
            match r {
                Some(line) => self@.failure() == Some(line@),
                None => self@.failure().is_none(),
            },
    {
        self.words(true)
    }
}

/// The operations of one edit on their way to the file system.
pub struct Applier {
    ops: Vec<Operation>,
    at: usize,
}

impl Applier {
    #[verifier::type_invariant]
    spec fn valid(self) -> bool {
        self.at as int == next_change(self.ops.deep_view(), self.at as int)
    }

    /// The operations, in their order.
    pub closed spec fn plan(&self) -> Seq<Verdict> {
        self.ops.deep_view()
    }

    /// The number of operations that are settled: each of them either asked
    /// for no change, or its change has been made.
    pub closed spec fn settled(&self) -> int {
        self.at as int
    }

    /// The position of the first operation from `from` on that asks for a
    /// change.
    fn seek(ops: &Vec<Operation>, from: usize) -> (at: usize)
        requires
            from <= ops.len(),
        ensures
            at == next_change(ops.deep_view(), from as int),
            at <= ops.len(),
    {
        let ghost plan = ops.deep_view();
        let mut at = from;
        while at < ops.len() && matches!(ops[at], Operation::Keep(_))
            invariant
                from <= at <= ops.len(),
                plan == ops.deep_view(),
                next_change(plan, from as int) == next_change(plan, at as int),
            decreases ops.len() - at,
        {
            assert(plan[at as int] == ops@[at as int]@);
            at += 1;
        }
        proof {
            if at < ops.len() {
                assert(plan[at as int] == ops@[at as int]@);
            }
        }
        at
    }

    /// Takes the operations of an edit. Those in front that ask for no change
    /// are settled at once.
    pub fn new(ops: Vec<Operation>) -> (r: Applier)
        ensures
            r.plan() == ops.deep_view(),
            r.settled() == next_change(ops.deep_view(), 0),
            forall|i: int| 0 <= i < r.settled() ==> (#[trigger] ops.deep_view()[i]) is Keep,
    {
        let at = Applier::seek(&ops, 0);
        proof {
            lemma_next_change(ops.deep_view(), 0);
            lemma_next_change_again(ops.deep_view(), 0);
        }
        Applier { ops, at }
    }

    /// The change to make now: that of the first operation that is not
    /// settled. `None` says that every operation is settled.
    pub fn action(&self) -> (r: Option<Action>)
        ensures
            0 <= self.settled() <= self.plan().len(),
            match r {
                Some(action) => self.settled() < self.plan().len() && self.plan()[self.settled()].step()
                    == Some(action@),
                None => self.settled() == self.plan().len(),
            },
    {
        proof {
            use_type_invariant(self);
            lemma_next_change(self.ops.deep_view(), self.at as int);
        }
        if self.at < self.ops.len() {
            assert(self.ops.deep_view()[self.at as int] == self.ops@[self.at as int]@);
            self.ops[self.at].action()
        } else {
            None
        }
    }

    /// Is told that the change handed out last has been made: its operation
    /// is settled, and so are those behind it that ask for no change. Gives
    /// the line that confirms the change. Where every operation was settled
    /// already, nothing happens.
    pub fn succeeded(&mut self) -> (r: Option<String>)
        ensures
            final(self).plan() == old(self).plan(),
            match r {
                Some(line) => {
                    &&& old(self).settled() < old(self).plan().len()
                    &&& old(self).plan()[old(self).settled()].confirmation() == Some(line@)
                    &&& final(self).settled() == next_change(
                        old(self).plan(),
                        old(self).settled() + 1,
                    )
                    &&& old(self).settled() < final(self).settled() <= old(self).plan().len()
                    &&& forall|i: int|
                        old(self).settled() < i < final(self).settled() ==> (
                        #[trigger] old(self).plan()[i]) is Keep
                },
                None => old(self).settled() == old(self).plan().len() && final(self).settled()
                    == old(self).settled(),
            },
    {
        proof {
            use_type_invariant(&*self);
            lemma_next_change(self.ops.deep_view(), self.at as int);
        }
        if self.at < self.ops.len() {
            assert(self.ops.deep_view()[self.at as int] == self.ops@[self.at as int]@);
            let line = self.ops[self.at].confirmation();
            let next = Applier::seek(&self.ops, self.at + 1);
            proof {
                lemma_next_change(self.ops.deep_view(), self.at + 1);
                lemma_next_change_again(self.ops.deep_view(), self.at + 1);
            }
            self.at = next;
            line
        } else {
            None
        }
    }

    /// Is told that the change handed out last has failed, and ends: no
    /// further change is handed out. Gives the words that say which change
    /// has failed. Where every operation was settled, there are none.
    pub fn failed(self) -> (r: Option<String>)
        ensures
            match r {
                Some(line) => self.settled() < self.plan().len() && self.plan()[self.settled()].failure()
                    == Some(line@),
                None => self.settled() == self.plan().len(),
            },
    {
        proof {
            use_type_invariant(&self);
            lemma_next_change(self.ops.deep_view(), self.at as int);
        }
        if self.at < self.ops.len() {
            assert(self.ops.deep_view()[self.at as int] == self.ops@[self.at as int]@);
            self.ops[self.at].failure()
        } else {
            None
        }
    }
}

/// From the next change on, the next change is itself.
pub proof fn lemma_next_change_again(plan: Seq<Verdict>, from: int)
    requires
        0 <= from <= plan.len(),
    ensures
        next_change(plan, next_change(plan, from)) == next_change(plan, from),
    decreases plan.len() - from,
{
    if from < plan.len() && plan[from] is Keep {
        lemma_next_change_again(plan, from + 1);
    }
}

} // verus!
