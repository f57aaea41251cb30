//! Asking the security rules: what they are told, and the loop that loads the data
//! they turn out to need.
use crate::clients;
use crate::clients::RulesAuth;
use crate::database::Database;
use crate::value::copy_members;
use vstd::prelude::*;

verus! {

/// How often an evaluation may stop for data before the answer is no.
pub const MAX_PROMOTION_RETRIES: usize = 50;

/// What came of one evaluation of the rules.
pub enum Verdict {
    Allowed,
    Denied,
    /// The data at this path has to be loaded first.
    NeedsData(String),
}

/// What a question to the rules asks for next.
pub enum RulesStep {
    /// Nothing: the answer is known.
    Decided(bool),
    /// The rules to be evaluated.
    Evaluate,
    /// The data at a path to be loaded.
    Load(String),
}

/// A question to the rules that is under way.
pub struct RulesCheck {
    /// Evaluations that are left, this one included.
    pub left: usize,
}

/// What the rules are told beside the data.
pub struct RulesContext {
    pub auth: Option<RulesAuth>,
    pub path: String,
    pub is_volatile: bool,
    pub database_id: String,
    pub project_id: String,
}

/// What a question to the rules starts with: without rules everything is allowed, and
/// a client that is not connected is allowed nothing.
pub open spec fn first_step(db: Database, client: Seq<char>) -> Option<bool> {
    if !db.has_rules {
        Some(true)
    } else if !db.clients@.contains_key(client) {
        Some(false)
    } else {
        None
    }
}

impl Database {
    /// Starts a question to the rules about a client.
    pub fn begin_rules_check(&self, client_id: &str) -> (r: (RulesCheck, RulesStep))
        requires
            self.clients.inv(),
        ensures
            r.0.left == MAX_PROMOTION_RETRIES,
            match first_step(*self, client_id@) {
                Some(answer) => r.1 == RulesStep::Decided(answer),
                None => r.1 is Evaluate,
            },
    {
        let check = RulesCheck { left: MAX_PROMOTION_RETRIES };
        if !self.has_rules {
            return (check, RulesStep::Decided(true));
        }
        match self.clients.get(client_id) {
            Some(_) => (check, RulesStep::Evaluate),
            None => (check, RulesStep::Decided(false)),
        }
    }

    /// What the rules are told about a client and a path.
    pub fn rules_context(&self, client_id: &str, path: &str) -> (r: RulesContext)
        requires
            self.clients.inv(),
        ensures
            clients::opt_rules(r.auth) == if self.clients@.contains_key(client_id@) {
                self.clients@[client_id@].rules_auth
            } else {
                None
            },
            r.path@ == path@,
            r.is_volatile == self.volatile_path(path@),
            r.database_id@ == self.pure_database_id@,
            r.project_id@ == self.project_id@,
    {
        let auth = match self.clients.get(client_id) {
            Some(c) => match &c.rules_auth {
                Some(a) => Some(copy_rules_auth(a)),
                None => None,
            },
            None => None,
        };
        RulesContext {
            auth,
            path: path.to_owned(),
            is_volatile: self.is_volatile_path(path),
            database_id: self.pure_database_id.clone(),
            project_id: self.project_id.clone(),
        }
    }
}

/// A copy of an optional text.
fn copy_opt_text(s: &Option<String>) -> (r: Option<String>)
    ensures
        clients::opt_text(r) == clients::opt_text(*s),
{
    match s {
        Some(t) => Some(t.clone()),
        None => None,
    }
}

/// A copy of an identity as the rules see it.
fn copy_rules_auth(a: &RulesAuth) -> (r: RulesAuth)
    ensures
        r@ == a@,
{
    let token = match &a.token {
        Some(t) => Some(copy_members(t)),
        None => None,
    };
    RulesAuth {
        uid: copy_opt_text(&a.uid),
        provider: copy_opt_text(&a.provider),
        token,
        is_true_admin: a.is_true_admin,
    }
}

impl RulesCheck {
    /// Goes on once the rules were evaluated.
    pub fn evaluated(&self, verdict: Verdict) -> (r: RulesStep)
        ensures
            match verdict {
                Verdict::Allowed => r == RulesStep::Decided(true),
                Verdict::Denied => r == RulesStep::Decided(false),
                Verdict::NeedsData(p) => r matches RulesStep::Load(q) && q@ == p@,
            },
    {
        match verdict {
            Verdict::Allowed => RulesStep::Decided(true),
            Verdict::Denied => RulesStep::Decided(false),
            Verdict::NeedsData(p) => RulesStep::Load(p),
        }
    }

    /// Goes on once data was loaded, or could not be. The answer is no where loading
    /// failed, and where no evaluation is left.
    pub fn loaded(&mut self, succeeded: bool) -> (r: RulesStep)
        ensures
            final(self).left == if old(self).left > 0 {
                old(self).left - 1
            } else {
                0
            },
            if succeeded && old(self).left > 1 {
                r is Evaluate
            } else {
                r == RulesStep::Decided(false)
            },
    {
        if self.left > 0 {
            self.left = self.left - 1;
        }
        if succeeded && self.left > 0 {
            RulesStep::Evaluate
        } else {
            RulesStep::Decided(false)
        }
    }
}

/// The answer to a question whose evaluations come out as listed, if each stop for data
/// is followed by loading that succeeds or fails as listed.
pub open spec fn answer(verdicts: Seq<Verdict>, loads: Seq<bool>, left: nat) -> Option<bool>
    decreases left,
{
    if left == 0 {
        Some(false)
    } else if verdicts.len() == 0 {
        None
    } else {
        match verdicts[0] {
            Verdict::Allowed => Some(true),
            Verdict::Denied => Some(false),
            Verdict::NeedsData(_) => if loads.len() == 0 {
                None
            } else if loads[0] {
                answer(verdicts.skip(1), loads.skip(1), (left - 1) as nat)
            } else {
                Some(false)
            },
        }
    }
}

/// A question to the rules ends: after as many evaluations as are allowed there is an
/// answer, whatever the rules ask for.
pub proof fn law_rules_questions_end(verdicts: Seq<Verdict>, loads: Seq<bool>, left: nat)
    requires
        verdicts.len() >= left,
        loads.len() >= left,
    ensures
        answer(verdicts, loads, left) is Some,
    decreases left,
{
    if left > 0 && verdicts[0] is NeedsData && loads[0] {
        law_rules_questions_end(verdicts.skip(1), loads.skip(1), (left - 1) as nat);
    }
}

/// Rules that never stop asking for data deny.
pub proof fn law_endless_questions_are_denied(
    verdicts: Seq<Verdict>,
    loads: Seq<bool>,
    left: nat,
)
    requires
        verdicts.len() >= left,
        loads.len() >= left,
        forall|i: int| 0 <= i < left ==> (#[trigger] verdicts[i]) is NeedsData,
    ensures
        answer(verdicts, loads, left) == Some(false),
    decreases left,
{
    if left > 0 {
        assert(verdicts[0] is NeedsData);
        if loads[0] {
            assert forall|i: int| 0 <= i < left - 1 implies (#[trigger] verdicts.skip(
                1,
            )[i]) is NeedsData by {
                assert(verdicts.skip(1)[i] == verdicts[i + 1]);
            }
            law_endless_questions_are_denied(
                verdicts.skip(1),
                loads.skip(1),
                (left - 1) as nat,
            );
        }
    }
}

/// The subscriptions to be taken back, in order: those that the rules no longer allow.
/// Without rules none is.
pub fn denied_subscriptions(has_rules: bool, allowed: &Vec<bool>) -> (r: Vec<usize>)
    ensures
        forall|i: usize| #[trigger]
            r@.contains(i) <==> has_rules && i < allowed@.len() && !allowed@[i as int],
        forall|a: int, b: int| 0 <= a < b < r@.len() ==> #[trigger] r@[a] < #[trigger] r@[b],
{
    let mut out: Vec<usize> = Vec::new();
    if !has_rules {
        return out;
    }
    let mut i: usize = 0;
    while i < allowed.len()
        invariant
            i <= allowed@.len(),
            forall|k: usize| #[trigger] out@.contains(k) <==> k < i && !allowed@[k as int],
            forall|a: int, b: int|
                0 <= a < b < out@.len() ==> #[trigger] out@[a] < #[trigger] out@[b],
            forall|a: int| 0 <= a < out@.len() ==> #[trigger] out@[a] < i,
        decreases allowed@.len() - i,
    {
        if !allowed[i] {
            let ghost before = out@;
            out.push(i);
            proof {
                assert forall|k: usize| #[trigger]
                    out@.contains(k) <==> k < i + 1 && !allowed@[k as int] by {
                    if before.contains(k) {
                        let j = choose|j: int| 0 <= j < before.len() && before[j] == k;
                        assert(out@[j] == k);
                    }
                    if k == i {
                        assert(out@[before.len() as int] == k);
                    }
                    if out@.contains(k) {
                        let j = choose|j: int| 0 <= j < out@.len() && out@[j] == k;
                        if j < before.len() {
                            assert(before[j] == k);
                        }
                    }
                }
            }
        }
        i = i + 1;
    }
    out
}

/// Without rules everybody may do everything; with rules, a client that is not connected may
/// do nothing, and about any other the rules are asked.
pub proof fn law_rules_are_asked(db: Database, client: Seq<char>)
    ensures
        !db.has_rules <==> first_step(db, client) == Some(true),
        db.has_rules && !db.clients@.contains_key(client) <==> first_step(db, client) == Some(false),
        db.has_rules && db.clients@.contains_key(client) <==> first_step(db, client) is None,
{
}

/// Something is allowed only where the rules say so, with all the data that they asked for at
/// hand; and what they say at once is what holds.
pub proof fn law_only_the_rules_allow(verdicts: Seq<Verdict>, loads: Seq<bool>, left: nat)
    ensures
        answer(verdicts, loads, left) == Some(true) ==> exists|i: int|
            0 <= i < left && i < verdicts.len() && (#[trigger] verdicts[i]) is Allowed && forall|
                j: int,
            |
                0 <= j < i ==> (#[trigger] verdicts[j]) is NeedsData && j < loads.len() && loads[j],
        left > 0 && verdicts.len() > 0 && verdicts[0] is Allowed ==> answer(verdicts, loads, left)
            == Some(true),
        left > 0 && verdicts.len() > 0 && verdicts[0] is Denied ==> answer(verdicts, loads, left)
            == Some(false),
    decreases left,
{
    if left > 0 && verdicts.len() > 0 {
        if verdicts[0] is Allowed {
            assert(verdicts[0] is Allowed);
        } else if verdicts[0] is NeedsData && loads.len() > 0 && loads[0] {
            let v = verdicts.skip(1);
            let l = loads.skip(1);
            law_only_the_rules_allow(v, l, (left - 1) as nat);
            if answer(verdicts, loads, left) == Some(true) {
                let i = choose|i: int|
                    0 <= i < left - 1 && i < v.len() && (#[trigger] v[i]) is Allowed && forall|
                        j: int,
                    |
                        0 <= j < i ==> (#[trigger] v[j]) is NeedsData && j < l.len() && l[j];
                assert(verdicts[i + 1] is Allowed);
                assert forall|j: int| 0 <= j < i + 1 implies (#[trigger] verdicts[j]) is NeedsData
                    && j < loads.len() && loads[j] by {
                    if j > 0 {
                        assert(v[j - 1] is NeedsData);
                        assert(l[j - 1] == loads[j]);
                    }
                }
            }
        }
    }
}

} // verus!
