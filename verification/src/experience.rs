//! The decisions of the `experience` command: which change each target
//! gets, what the command answers, and with which message.

use vstd::prelude::*;
use crate::command_info::{ArgumentInfo, ArgumentKind, PermissionInfo};

verus! {

/// What the command does.
#[derive(Clone, Copy, Debug, PartialEq, Eq, Structural)]
pub enum Mode {
    Add,
    /// Sets the amount (the `set` literal of the command).
    Assign,
    Query,
}

/// Which kind of experience the command works on.
#[derive(Clone, Copy, Debug, PartialEq, Eq, Structural)]
pub enum ExpType {
    Points,
    Levels,
}

/// One registered form of the command.
#[derive(Clone, Copy, Debug, PartialEq, Eq, Structural)]
pub struct Executor {
    pub mode: Mode,
    pub exp_type: Option<ExpType>,
}

/// The experience points that make up level `level` (the points needed to
/// go from `level` to the next one).
pub open spec fn spec_points_in_level(level: int) -> int {
    if level >= 30 {
        112 + (level - 30) * 9
    } else if level >= 15 {
        37 + (level - 15) * 5
    } else {
        7 + level * 2
    }
}

/// The experience points that make up level `level`.
pub fn points_in_level(level: i32) -> (r: i64)
    ensures
        r == spec_points_in_level(level as int),
{
    let l = level as i64;
    if l >= 30 {
        112 + (l - 30) * 9
    } else if l >= 15 {
        37 + (l - 15) * 5
    } else {
        7 + l * 2
    }
}

/// The change made to one target.
#[derive(Clone, Copy, Debug, PartialEq, Eq, Structural)]
pub enum ExperienceAction {
    AddLevels(i32),
    SetLevel(i32),
    AddPoints(i32),
    SetPoints(i32),
    /// The points asked for do not fit in the target's current level; the
    /// target is left as it is.
    Refused,
}

/// The change that `mode` with `amount` makes to a target at level
/// `current_level`: levels are added or set; points are added, or set when
/// they fit in the current level and refused otherwise. Every mode other
/// than `Add` sets.
pub open spec fn spec_modify_action(exp_type: ExpType, mode: Mode, amount: i32, current_level: i32) -> ExperienceAction {
    match exp_type {
        ExpType::Levels => if mode == Mode::Add {
            ExperienceAction::AddLevels(amount)
        } else {
            ExperienceAction::SetLevel(amount)
        },
        ExpType::Points => if mode == Mode::Add {
            ExperienceAction::AddPoints(amount)
        } else if amount > spec_points_in_level(current_level as int) {
            ExperienceAction::Refused
        } else {
            ExperienceAction::SetPoints(amount)
        },
    }
}

/// Decides the change made to a target at level `current_level`.
pub fn modify_action(exp_type: ExpType, mode: Mode, amount: i32, current_level: i32) -> (r: ExperienceAction)
    ensures
        r == spec_modify_action(exp_type, mode, amount, current_level),
{
    match exp_type {
        ExpType::Levels => {
            if mode == Mode::Add {
                ExperienceAction::AddLevels(amount)
            } else {
                ExperienceAction::SetLevel(amount)
            }
        },
        ExpType::Points => {
            if mode == Mode::Add {
                ExperienceAction::AddPoints(amount)
            } else {
                let current_max_points = points_in_level(current_level);
                if amount as i64 > current_max_points {
                    ExperienceAction::Refused
                } else {
                    ExperienceAction::SetPoints(amount)
                }
            }
        },
    }
}

/// The second argument of a success message: the number of targets when
/// there are several, the display name of the first target otherwise.
#[derive(Clone, Copy, Debug, PartialEq, Eq, Structural)]
pub enum MessageSubject {
    TargetCount(usize),
    FirstTargetName,
}

/// A translated message: its translation key and its arguments, the amount
/// first.
#[derive(Clone, Copy, Debug)]
pub struct SuccessMessage {
    pub key: &'static str,
    pub amount: i32,
    pub subject: MessageSubject,
}

/// The translation key of the success message of `mode` on `exp_type`, for
/// one target or for several.
pub open spec fn spec_success_key(mode: Mode, exp_type: ExpType, multiple: bool) -> Seq<char> {
    match (mode, exp_type) {
        (Mode::Add, ExpType::Points) => if multiple {
            "commands.experience.add.points.success.multiple"@
        } else {
            "commands.experience.add.points.success.single"@
        },
        (Mode::Add, ExpType::Levels) => if multiple {
            "commands.experience.add.levels.success.multiple"@
        } else {
            "commands.experience.add.levels.success.single"@
        },
        (Mode::Assign, ExpType::Points) => if multiple {
            "commands.experience.set.points.success.multiple"@
        } else {
            "commands.experience.set.points.success.single"@
        },
        (Mode::Assign, ExpType::Levels) => if multiple {
            "commands.experience.set.levels.success.multiple"@
        } else {
            "commands.experience.set.levels.success.single"@
        },
        (Mode::Query, _) => Seq::empty(),
    }
}

/// The success message for `targets_len` targets.
pub open spec fn spec_success_message_fits(m: SuccessMessage, mode: Mode, exp_type: ExpType, amount: i32, targets_len: usize) -> bool {
    &&& m.key@ == spec_success_key(mode, exp_type, targets_len > 1)
    &&& m.amount == amount
    &&& m.subject == if targets_len > 1 {
        MessageSubject::TargetCount(targets_len)
    } else {
        MessageSubject::FirstTargetName
    }
}

/// The answer to a query: the value, and the key of the feedback that shows
/// it after the target's display name.
#[derive(Clone, Copy, Debug)]
pub struct QueryAnswer {
    pub key: &'static str,
    pub value: i32,
}

/// The answer to a query of `exp_type` about `target`: its level or its
/// points, with the matching key.
pub open spec fn spec_query_answer_fits(a: QueryAnswer, target: PlayerExperience, exp_type: ExpType) -> bool {
    match exp_type {
        ExpType::Levels => a.value == target.level && a.key@ == "commands.experience.query.levels"@,
        ExpType::Points => a.value == target.points && a.key@ == "commands.experience.query.points"@,
    }
}

/// A target as far as the command reads it.
#[derive(Clone, Copy, Debug, PartialEq, Eq, Structural)]
pub struct PlayerExperience {
    pub level: i32,
    pub points: i32,
}

/// The number of changes that are not refusals.
pub open spec fn count_applied(actions: Seq<ExperienceAction>) -> nat
    decreases actions.len(),
{
    if actions.len() == 0 {
        0
    } else {
        count_applied(actions.drop_last()) + if actions.last() == ExperienceAction::Refused {
            0nat
        } else {
            1nat
        }
    }
}

proof fn lemma_count_applied_bound(actions: Seq<ExperienceAction>)
    ensures
        count_applied(actions) <= actions.len(),
    decreases actions.len(),
{
    if actions.len() > 0 {
        lemma_count_applied_bound(actions.drop_last());
    }
}

/// What the command does and answers when it succeeds.
#[derive(Debug)]
pub enum ExperienceOutcome {
    /// A query: the answer about the first target.
    Queried(QueryAnswer),
    /// An addition or a setting: the change for each target in order, the
    /// number of targets changed (the command's result), and the feedback.
    Modified { actions: Vec<ExperienceAction>, successes: i32, message: SuccessMessage },
}

/// Why the command failed.
#[derive(Clone, Copy, Debug, PartialEq, Eq, Structural)]
pub enum ExperienceError {
    /// No target could be given the points asked for.
    SetPointsInvalid,
}

impl Executor {
    /// The success message of `mode` on `exp_type` with `amount` for
    /// `targets_len` targets. Queries have no success message.
    pub fn get_success_message(mode: Mode, exp_type: ExpType, amount: i32, targets_len: usize) -> (r: SuccessMessage)
        requires
            mode != Mode::Query,
        ensures
            spec_success_message_fits(r, mode, exp_type, amount, targets_len),
    {
        let multiple = targets_len > 1;
        let key: &'static str = match (mode, exp_type) {
            (Mode::Add, ExpType::Points) => if multiple {
                "commands.experience.add.points.success.multiple"
            } else {
                "commands.experience.add.points.success.single"
            },
            (Mode::Add, ExpType::Levels) => if multiple {
                "commands.experience.add.levels.success.multiple"
            } else {
                "commands.experience.add.levels.success.single"
            },
            (Mode::Assign, ExpType::Points) => if multiple {
                "commands.experience.set.points.success.multiple"
            } else {
                "commands.experience.set.points.success.single"
            },
            (Mode::Assign, ExpType::Levels) => if multiple {
                "commands.experience.set.levels.success.multiple"
            } else {
                "commands.experience.set.levels.success.single"
            },
            (Mode::Query, _) => unreached(),
        };
        let subject = if multiple {
            MessageSubject::TargetCount(targets_len)
        } else {
            MessageSubject::FirstTargetName
        };
        SuccessMessage { key, amount, subject }
    }

    /// The answer to a query of `exp_type` about a target.
    pub fn handle_query(target: PlayerExperience, exp_type: ExpType) -> (r: QueryAnswer)
        ensures
            spec_query_answer_fits(r, target, exp_type),
    {
        match exp_type {
            ExpType::Levels => QueryAnswer { key: "commands.experience.query.levels", value: target.level },
            ExpType::Points => QueryAnswer { key: "commands.experience.query.points", value: target.points },
        }
    }

    /// Decides the change for one target. The target counts as changed
    /// for every action but `Refused`.
    pub fn handle_modify(target: PlayerExperience, amount: i32, exp_type: ExpType, mode: Mode) -> (r: ExperienceAction)
        ensures
            r == spec_modify_action(exp_type, mode, amount, target.level),
    {
        modify_action(exp_type, mode, amount, target.level)
    }

    /// Runs the command on `targets` with `amount` (which a query does not
    /// read): a query answers about the first target; an addition or a
    /// setting decides the change for each target, fails when none is
    /// changed, and otherwise answers the number changed with its message.
    pub fn execute(&self, amount: i32, targets: &Vec<PlayerExperience>) -> (r: Result<ExperienceOutcome, ExperienceError>)
        requires
            self.exp_type is Some,
            self.mode == Mode::Query ==> targets@.len() > 0,
            self.mode != Mode::Query ==> targets@.len() <= i32::MAX,
        ensures
            ({
                let exp_type = self.exp_type->0;
                if self.mode == Mode::Query {
                    r matches Ok(ExperienceOutcome::Queried(a)) && spec_query_answer_fits(a, targets@[0], exp_type)
                } else {
                    let expected = Seq::new(targets@.len(), |i: int| spec_modify_action(exp_type, self.mode, amount, targets@[i].level));
                    match r {
                        Ok(ExperienceOutcome::Modified { actions, successes, message }) => {
                            &&& actions@ == expected
                            &&& successes as int == count_applied(expected)
                            &&& successes > 0
                            &&& spec_success_message_fits(message, self.mode, exp_type, amount, targets@.len() as usize)
                        },
                        Ok(ExperienceOutcome::Queried(_)) => false,
                        Err(e) => e == ExperienceError::SetPointsInvalid && count_applied(expected) == 0,
                    }
                }
            }),
    {
        let exp_type = match self.exp_type {
            Some(t) => t,
            None => unreached(),
        };
        match self.mode {
            Mode::Query => {
                let answer = Self::handle_query(targets[0], exp_type);
                assert(spec_query_answer_fits(answer, targets@[0], exp_type));
                Ok(ExperienceOutcome::Queried(answer))
            },
            _ => {
                let ghost expected = Seq::new(targets@.len(), |i: int| spec_modify_action(exp_type, self.mode, amount, targets@[i].level));
                let mut actions: Vec<ExperienceAction> = Vec::new();
                let mut successes: i32 = 0;
                let mut i: usize = 0;
                while i < targets.len()
                    invariant
                        targets@.len() <= i32::MAX,
                        i <= targets@.len(),
                        expected == Seq::new(targets@.len(), |i: int| spec_modify_action(exp_type, self.mode, amount, targets@[i].level)),
                        actions@ == expected.subrange(0, i as int),
                        successes as int == count_applied(actions@),
                    decreases targets.len() - i,
                {
                    let action = Self::handle_modify(targets[i], amount, exp_type, self.mode);
                    let ghost before = actions@;
                    proof {
                        lemma_count_applied_bound(before);
                    }
                    actions.push(action);
                    assert(actions@.drop_last() == before);
                    assert(actions@.last() == action);
                    if action != ExperienceAction::Refused {
                        successes = successes + 1;
                    }
                    i = i + 1;
                }
                assert(expected.subrange(0, targets@.len() as int) == expected);
                if successes == 0 {
                    Err(ExperienceError::SetPointsInvalid)
                } else {
                    let message = Self::get_success_message(self.mode, exp_type, amount, targets.len());
                    Ok(ExperienceOutcome::Modified { actions, successes, message })
                }
            },
        }
    }
}

/// Only setting points can be refused, and it is refused exactly when the
/// points do not fit in the target's current level.
pub proof fn lemma_only_setting_points_is_refused(exp_type: ExpType, mode: Mode, amount: i32, current_level: i32)
    ensures
        (spec_modify_action(exp_type, mode, amount, current_level) == ExperienceAction::Refused) <==> (
        exp_type == ExpType::Points && mode != Mode::Add && amount > spec_points_in_level(
            current_level as int,
        )),
{
}

/// Adding, and anything on levels, changes every target: the command then
/// succeeds with the number of targets as its result whenever there is one.
pub proof fn lemma_every_target_applied(exp_type: ExpType, mode: Mode, amount: i32, levels: Seq<i32>)
    requires
        mode == Mode::Add || exp_type == ExpType::Levels,
    ensures
        count_applied(Seq::new(levels.len(), |i: int| spec_modify_action(exp_type, mode, amount, levels[i])))
            == levels.len(),
    decreases levels.len(),
{
    let actions = Seq::new(levels.len(), |i: int| spec_modify_action(exp_type, mode, amount, levels[i]));
    if levels.len() > 0 {
        let shorter = levels.drop_last();
        lemma_every_target_applied(exp_type, mode, amount, shorter);
        assert(actions.drop_last() =~= Seq::new(shorter.len(), |i: int| spec_modify_action(exp_type, mode, amount, shorter[i])));
    }
}

/// The executor that a path of the command runs: `add` and `set` take an
/// amount and run on points unless the path ends in `levels`; `query` runs
/// only with `levels` or `points` at the end. `None` where the command has no
/// such path.
pub open spec fn spec_executor_for_path(mode: Mode, kind: Option<ExpType>) -> Option<Executor> {
    match (mode, kind) {
        (Mode::Query, None) => None,
        (m, Some(k)) => Some(Executor { mode: m, exp_type: Some(k) }),
        (m, None) => Some(Executor { mode: m, exp_type: Some(ExpType::Points) }),
    }
}

/// A path of `add` or `set` that ends after the amount runs the same
/// executor as the one that ends in `points`; every path runs its own mode,
/// on the kind its last literal names; a query runs only with a kind.
pub proof fn lemma_paths_default_to_points(mode: Mode, kind: Option<ExpType>)
    ensures
        mode != Mode::Query ==> spec_executor_for_path(mode, None) == spec_executor_for_path(mode, Some(ExpType::Points)),
        spec_executor_for_path(mode, kind) matches Some(e) ==> e.mode == mode && (kind matches Some(k) ==> e.exp_type == Some(k)),
        spec_executor_for_path(mode, kind) is None <==> (mode == Mode::Query && kind is None),
{
}

/// The word of a mode in a translation key.
pub open spec fn mode_word(mode: Mode) -> Seq<char> {
    match mode {
        Mode::Add => "add"@,
        Mode::Assign => "set"@,
        Mode::Query => "query"@,
    }
}

/// The word of a kind of experience in a translation key.
pub open spec fn kind_word(exp_type: ExpType) -> Seq<char> {
    match exp_type {
        ExpType::Points => "points"@,
        ExpType::Levels => "levels"@,
    }
}

/// The success key of an addition or a setting is put together from the
/// command's own mode, kind and number of targets:
/// `commands.experience.<add|set>.<points|levels>.success.<multiple|single>`.
pub proof fn lemma_success_key_names_mode_kind_and_count(mode: Mode, exp_type: ExpType, multiple: bool)
    requires
        mode != Mode::Query,
    ensures
        spec_success_key(mode, exp_type, multiple) == "commands.experience."@ + mode_word(mode) + "."@ + kind_word(
            exp_type,
        ) + ".success."@ + if multiple {
            "multiple"@
        } else {
            "single"@
        },
{
    reveal_strlit("commands.experience.");
    reveal_strlit(".");
    reveal_strlit(".success.");
    reveal_strlit("multiple");
    reveal_strlit("single");
    reveal_strlit("add");
    reveal_strlit("set");
    reveal_strlit("points");
    reveal_strlit("levels");
    reveal_strlit("commands.experience.add.points.success.multiple");
    reveal_strlit("commands.experience.add.points.success.single");
    reveal_strlit("commands.experience.add.levels.success.multiple");
    reveal_strlit("commands.experience.add.levels.success.single");
    reveal_strlit("commands.experience.set.points.success.multiple");
    reveal_strlit("commands.experience.set.points.success.single");
    reveal_strlit("commands.experience.set.levels.success.multiple");
    reveal_strlit("commands.experience.set.levels.success.single");
    let built = "commands.experience."@ + mode_word(mode) + "."@ + kind_word(exp_type) + ".success."@ + if multiple {
        "multiple"@
    } else {
        "single"@
    };
    assert(spec_success_key(mode, exp_type, multiple) =~= built);
}

/// A query answers with the target's own level or points, under the key
/// `commands.experience.query.<levels|points>` of the kind asked for.
pub proof fn lemma_query_answer_names_kind(a: QueryAnswer, target: PlayerExperience, exp_type: ExpType)
    requires
        spec_query_answer_fits(a, target, exp_type),
    ensures
        a.key@ == "commands.experience."@ + mode_word(Mode::Query) + "."@ + kind_word(exp_type),
        a.value == (if exp_type == ExpType::Levels {
            target.level
        } else {
            target.points
        }),
{
    reveal_strlit("commands.experience.");
    reveal_strlit(".");
    reveal_strlit("query");
    reveal_strlit("points");
    reveal_strlit("levels");
    reveal_strlit("commands.experience.query.levels");
    reveal_strlit("commands.experience.query.points");
    assert(a.key@ =~= "commands.experience."@ + mode_word(Mode::Query) + "."@ + kind_word(exp_type));
}

/// Finds the executor that the path with literal `mode` and, at its end,
/// the literal `kind` (if any) runs.
pub fn executor_for_path(mode: Mode, kind: Option<ExpType>) -> (r: Option<Executor>)
    ensures
        r == spec_executor_for_path(mode, kind),
{
    match (mode, kind) {
        (Mode::Query, None) => None,
        (m, Some(k)) => Some(Executor { mode: m, exp_type: Some(k) }),
        (m, None) => Some(Executor { mode: m, exp_type: Some(ExpType::Points) }),
    }
}

/// Whether the amount argument of a path accepts `amount`: any integer for
/// `add`, none below zero for `set`; `query` takes no amount.
pub fn amount_accepted(mode: Mode, amount: i32) -> (r: bool)
    ensures
        r == (mode == Mode::Add || (mode == Mode::Assign && amount >= 0)),
{
    match mode {
        Mode::Add => true,
        Mode::Assign => amount >= 0,
        Mode::Query => false,
    }
}

/// The target argument of the paths of `mode`: any number of players for
/// `add` and `set`, exactly one for `query`. The command does not run on the
/// target alone: an amount, or for `query` the kind, follows it.
pub fn target_argument(mode: Mode) -> (r: ArgumentInfo)
    ensures
        r.name@ == "target"@,
        r.kind == (if mode == Mode::Query {
            ArgumentKind::Player
        } else {
            ArgumentKind::Players
        }),
        !r.custom_suggestions,
        !r.executes,
{
    let kind = if matches!(mode, Mode::Query) {
        ArgumentKind::Player
    } else {
        ArgumentKind::Players
    };
    ArgumentInfo { name: "target", kind, custom_suggestions: false, executes: false }
}

/// The amount argument of the paths of `mode`: any integer for `add`, none
/// below zero for `set`, and the command runs (on points) when the line ends
/// after it; `query` has none.
pub fn amount_argument(mode: Mode) -> (r: Option<ArgumentInfo>)
    ensures
        mode == Mode::Query <==> r is None,
        r matches Some(a) ==> {
            &&& a.name@ == "amount"@
            &&& a.kind == (if mode == Mode::Add {
                ArgumentKind::Integer
            } else {
                ArgumentKind::NonNegativeInteger
            })
            &&& !a.custom_suggestions
            &&& a.executes
        },
{
    match mode {
        Mode::Add => Some(ArgumentInfo { name: "amount", kind: ArgumentKind::Integer, custom_suggestions: false, executes: true }),
        Mode::Assign => Some(ArgumentInfo { name: "amount", kind: ArgumentKind::NonNegativeInteger, custom_suggestions: false, executes: true }),
        Mode::Query => None,
    }
}

/// The command's name and its alias.
pub fn command_names() -> (r: (&'static str, &'static str))
    ensures
        r.0@ == "experience"@,
        r.1@ == "xp"@,
{
    ("experience", "xp")
}

/// The permission the command needs, which operators of level two have by
/// default.
pub fn permission() -> (r: PermissionInfo)
    ensures
        r.node@ == "minecraft:command.experience"@,
        r.description@ == "Add, set or query player experience."@,
        r.default_op_level == 2,
{
    PermissionInfo {
        node: "minecraft:command.experience",
        description: "Add, set or query player experience.",
        default_op_level: 2,
    }
}

impl ExperienceError {
    /// The translation key of the error message.
    pub fn translation_key(&self) -> (r: &'static str)
        ensures
            r@ == "commands.experience.set.points.invalid"@,
    {
        "commands.experience.set.points.invalid"
    }
}

} // verus!
