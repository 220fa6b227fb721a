//! The backup of the proxy variables taken before the proxy is first started
//! in the Windows user environment, and the plan for stopping it.
use vstd::prelude::*;
use crate::proxy::{proxy_env_key_texts, proxy_env_keys};

verus! {

pub open spec fn opt_text(o: Option<String>) -> Option<Seq<char>> {
    match o {
        Some(s) => Some(s@),
        None => None,
    }
}

pub open spec fn opt_texts(v: Seq<Option<String>>) -> Seq<Option<Seq<char>>> {
    v.map_values(|o: Option<String>| opt_text(o))
}

/// The values the proxy variables had before the proxy was started: one per
/// name of `proxy_env_key_texts`, in that order, `None` where the variable
/// was not set.
pub struct SavedEnv {
    values: Vec<Option<String>>,
}

impl View for SavedEnv {
    type V = Seq<Option<Seq<char>>>;

    closed spec fn view(&self) -> Seq<Option<Seq<char>>> {
        opt_texts(self.values@)
    }
}

impl SavedEnv {
    #[verifier::type_invariant]
    spec fn one_per_name(self) -> bool {
        self.values@.len() == proxy_env_key_texts().len()
    }

    /// The saved values, one per proxy variable name.
    pub fn values(&self) -> (v: &Vec<Option<String>>)
        ensures
            opt_texts(v@) == self@,
            v@.len() == proxy_env_key_texts().len(),
    {
        proof {
            use_type_invariant(self);
        }
        &self.values
    }
}

/// The backup of the current values of the proxy variables, read in the
/// order of `proxy_env_key_texts`.
pub fn backup_of(current: Vec<Option<String>>) -> (s: SavedEnv)
    requires
        current@.len() == proxy_env_key_texts().len(),
    ensures
        s@ == opt_texts(current@),
{
    SavedEnv { values: current }
}

/// What stopping the proxy leaves in each proxy variable: the value it had
/// before the proxy was started where a backup was taken, deleted (`None`)
/// where none was.
pub open spec fn restored_values(saved: Option<Seq<Option<Seq<char>>>>) -> Seq<Option<Seq<char>>> {
    match saved {
        Some(s) => s,
        None => Seq::new(proxy_env_key_texts().len(), |i: int| None),
    }
}

pub open spec fn saved_view(saved: Option<&SavedEnv>) -> Option<Seq<Option<Seq<char>>>> {
    match saved {
        Some(s) => Some(s@),
        None => None,
    }
}

/// The plan for stopping the proxy: for each proxy variable name in the order
/// of `proxy_env_key_texts`, the value to set back, or `None` to delete the
/// variable.
pub fn restore_plan(saved: Option<&SavedEnv>) -> (plan: Vec<(String, Option<String>)>)
    ensures
        plan@.len() == proxy_env_key_texts().len(),
        forall|i: int|
            0 <= i < plan@.len() ==> (#[trigger] plan@[i]).0@ == proxy_env_key_texts()[i] && opt_text(
                plan@[i].1,
            ) == restored_values(saved_view(saved))[i],
{
    let keys = proxy_env_keys();
    assert(keys@.len() == 8) by {
        assert(keys@.map_values(|s: String| s@).len() == keys@.len());
    }
    match saved {
        Some(s) => {
            proof {
                use_type_invariant(s);
            }
        },
        None => {},
    }
    let mut plan: Vec<(String, Option<String>)> = Vec::new();
    let mut i: usize = 0;
    while i < keys.len()
        invariant
            i <= keys@.len(),
            keys@.len() == proxy_env_key_texts().len(),
            keys@.map_values(|s: String| s@) == proxy_env_key_texts(),
            plan@.len() == i,
            saved matches Some(s) ==> s@.len() == proxy_env_key_texts().len(),
            forall|j: int|
                0 <= j < i ==> (#[trigger] plan@[j]).0@ == proxy_env_key_texts()[j] && opt_text(
                    plan@[j].1,
                ) == restored_values(saved_view(saved))[j],
        decreases keys@.len() - i,
    {
        let key = keys[i].clone();
        assert(key@ == keys@.map_values(|s: String| s@)[i as int]);
        let value: Option<String> = match saved {
            Some(s) => {
                let vals = s.values();
                assert(opt_texts(vals@)[i as int] == opt_text(vals@[i as int]));
                match &vals[i] {
                    Some(v) => Some(v.clone()),
                    None => None,
                }
            },
            None => None,
        };
        plan.push((key, value));
        i = i + 1;
    }
    plan
}

/// Law: stopping the proxy after a backup of `current` was taken sets every
/// proxy variable back to its value in `current`, and deletes those that were
/// not set; without a backup, or with a backup in which no proxy variable was
/// set, stopping clears every proxy variable.
pub proof fn lemma_restore_undoes_backup(current: Seq<Option<String>>)
    requires
        current.len() == proxy_env_key_texts().len(),
    ensures
        restored_values(Some(opt_texts(current))) == opt_texts(current),
        forall|i: int| 0 <= i < proxy_env_key_texts().len() ==> (#[trigger] restored_values(None)[i]) is None,
        (forall|i: int| 0 <= i < current.len() ==> (#[trigger] current[i]) is None) ==> forall|i: int|
            0 <= i < current.len() ==> (#[trigger] restored_values(Some(opt_texts(current)))[i]) is None,
{
}

} // verus!
