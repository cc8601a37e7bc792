//! Settings of a repository.

use crate::text;
use crate::text::{same_text, text_before};
use vstd::prelude::*;
use vstd::string::*;

verus! {

/// When a path that matches `trigger` is updated, the `dependents` are too.
#[derive(Debug)]
pub struct UpdateOnRule {
    pub trigger: String,
    pub dependents: Vec<String>,
}

/// [`UpdateOnRule`] over mathematical values.
#[verifier::ext_equal]
pub struct RuleView {
    pub trigger: Seq<char>,
    pub dependents: Seq<Seq<char>>,
}

impl View for UpdateOnRule {
    type V = RuleView;

    open spec fn view(&self) -> RuleView {
        RuleView { trigger: self.trigger@, dependents: crate::paths::views(self.dependents@) }
    }
}

/// The rules over mathematical values.
pub open spec fn rule_views(rules: Seq<UpdateOnRule>) -> Seq<RuleView> {
    rules.map_values(|r: UpdateOnRule| r@)
}

/// The settings that discovery and planning read.
#[derive(Debug)]
pub struct Config {
    pub ignore: Vec<String>,
    pub base_branch: String,
    pub update_on: Vec<UpdateOnRule>,
}

impl Config {
    /// The rules stand in the order of their triggers, each trigger once.
    pub open spec fn well_formed(&self) -> bool {
        forall|i: int, j: int|
            0 <= i < j < self.update_on@.len() ==> text::text_lt(
                (#[trigger] self.update_on@[i]).trigger@,
                (#[trigger] self.update_on@[j]).trigger@,
            )
    }

    /// Settings that ignore nothing and have no rules.
    pub fn new(base_branch: &str) -> (config: Self)
        ensures
            config.well_formed(),
            config.ignore@.len() == 0,
            config.base_branch@ == base_branch@,
            config.update_on@.len() == 0,
    {
        Config {
            ignore: Vec::new(),
            base_branch: base_branch.to_string(),
            update_on: Vec::new(),
        }
    }

    /// Sets the dependents of `trigger`, in place of those it had.
    pub fn set_rule(&mut self, trigger: String, dependents: Vec<String>)
        requires
            old(self).well_formed(),
        ensures
            final(self).well_formed(),
            final(self).ignore == old(self).ignore,
            final(self).base_branch == old(self).base_branch,
            exists|at: int| 0 <= at < final(self).update_on@.len()
                && #[trigger] final(self).update_on@[at]@ == (RuleView {
                trigger: trigger@,
                dependents: crate::paths::views(dependents@),
            }),
            forall|i: int|
                0 <= i < old(self).update_on@.len() && (#[trigger] old(self).update_on@[i]).trigger@
                    != trigger@ ==> final(self).update_on@.contains(old(self).update_on@[i]),
            forall|i: int|
                0 <= i < final(self).update_on@.len() && (#[trigger] final(self).update_on@[i]).trigger@
                    != trigger@ ==> old(self).update_on@.contains(final(self).update_on@[i]),
    {
        let ghost before = self.update_on@;
        let mut at: usize = 0;
        while at < self.update_on.len() && text_before(
            self.update_on[at].trigger.as_str(),
            trigger.as_str(),
        )
            invariant
                at <= self.update_on@.len(),
                self.update_on@ == before,
                self.ignore == old(self).ignore,
                self.base_branch == old(self).base_branch,
                old(self).well_formed(),
                before == old(self).update_on@,
                forall|k: int|
                    0 <= k < at ==> text::text_lt((#[trigger] before[k]).trigger@, trigger@),
            decreases self.update_on@.len() - at,
        {
            at = at + 1;
        }
        let ghost rule = UpdateOnRule { trigger, dependents };
        proof {
            if at < before.len() {
                text::text_lt_total(before[at as int].trigger@, trigger@);
                assert forall|k: int| at < k < before.len() implies text::text_lt(
                    trigger@,
                    (#[trigger] before[k]).trigger@,
                ) by {
                    assert(text::text_lt(before[at as int].trigger@, before[k].trigger@));
                    if before[at as int].trigger@ != trigger@ {
                        text::text_lt_transitive(
                            trigger@,
                            before[at as int].trigger@,
                            before[k].trigger@,
                        );
                    }
                }
            }
        }
        if at < self.update_on.len() && same_text(
            self.update_on[at].trigger.as_str(),
            trigger.as_str(),
        ) {
            self.update_on.set(at, UpdateOnRule { trigger, dependents });
            proof {
                assert(self.update_on@[at as int]@ == rule@);
                assert forall|i: int|
                    0 <= i < before.len() && (#[trigger] before[i]).trigger@
                        != rule.trigger@ implies self.update_on@.contains(before[i]) by {
                    assert(self.update_on@[i] == before[i]);
                }
            }
        } else {
            self.update_on.insert(at, UpdateOnRule { trigger, dependents });
            proof {
                assert(self.update_on@[at as int]@ == rule@);
                assert forall|i: int|
                    0 <= i < before.len() && (#[trigger] before[i]).trigger@
                        != rule.trigger@ implies self.update_on@.contains(before[i]) by {
                    assert(self.update_on@[if i < at {
                        i
                    } else {
                        i + 1
                    }] == before[i]);
                }
                assert forall|i: int|
                    0 <= i < self.update_on@.len() && (#[trigger] self.update_on@[i]).trigger@
                        != rule.trigger@ implies before.contains(self.update_on@[i]) by {
                    assert(before[if i < at {
                        i
                    } else {
                        i - 1
                    }] == self.update_on@[i]);
                }
                assert forall|i: int, j: int| 0 <= i < j < self.update_on@.len() implies text::text_lt(
                    (#[trigger] self.update_on@[i]).trigger@,
                    (#[trigger] self.update_on@[j]).trigger@,
                ) by {
                    if i != at {
                        let oi = if i < at { i } else { i - 1 };
                        assert(self.update_on@[i] == before[oi]);
                    }
                    if j != at {
                        let oj = if j < at { j } else { j - 1 };
                        assert(self.update_on@[j] == before[oj]);
                    }
                }
            }
        }
    }
}

} // verus!
