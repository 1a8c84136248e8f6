//! Gift restrictions: members who may not receive gifts, each shown under a
//! custom name.
use std::collections::HashMap;
use vstd::prelude::*;

verus! {

broadcast use vstd::std_specs::hash::group_hash_axioms;

/// One group of restricted members sharing a custom name.
#[derive(Debug)]
pub struct RestrictedUser {
    pub user_ids: Vec<u64>,
    pub custom_name: String,
}

/// The restrictions as written in the configuration file.
#[derive(Debug)]
pub struct GiftRestrictionsConfig {
    pub restricted_users: Vec<RestrictedUser>,
}

/// The restrictions as looked up: member id to custom name.
#[derive(Debug)]
pub struct GiftRestrictionConfig {
    pub restrictions: HashMap<u64, String>,
}

/// The names of the first `n` groups; a later group overrides an earlier one.
pub open spec fn names_of(groups: Seq<RestrictedUser>, n: int) -> Map<u64, String>
    decreases n,
{
    if n <= 0 {
        Map::empty()
    } else {
        names_of(groups, n - 1).union_prefer_right(
            Map::new(|id: u64| groups[n - 1].user_ids@.contains(id), |id: u64| groups[n - 1].custom_name),
        )
    }
}

impl GiftRestrictionConfig {
    pub fn new() -> (r: Self)
        ensures
            r.restrictions@ == Map::<u64, String>::empty(),
    {
        GiftRestrictionConfig { restrictions: HashMap::new() }
    }

    /// Binds every member id of every group to the group's name.
    pub fn from_groups(config: &GiftRestrictionsConfig) -> (r: Self)
        ensures
            r.restrictions@ == names_of(config.restricted_users@, config.restricted_users@.len() as int),
    {
        let groups = &config.restricted_users;
        let mut map: HashMap<u64, String> = HashMap::new();
        let mut g: usize = 0;
        while g < groups.len()
            invariant
                g <= groups@.len(),
                map@ == names_of(groups@, g as int),
            decreases groups@.len() - g,
        {
            let group = &groups[g];
            let ghost base = map@;
            let mut j: usize = 0;
            while j < group.user_ids.len()
                invariant
                    j <= group.user_ids@.len(),
                    map@ == base.union_prefer_right(
                        Map::new(|id: u64| group.user_ids@.subrange(0, j as int).contains(id), |id: u64| group.custom_name),
                    ),
                decreases group.user_ids@.len() - j,
            {
                let id = group.user_ids[j];
                let ghost prev = map@;
                map.insert(id, group.custom_name.clone());
                proof {
                    let next = group.user_ids@.subrange(0, j as int + 1);
                    assert forall|x: u64| next.contains(x) <==> group.user_ids@.subrange(0, j as int).contains(x) || x == id by {
                        if next.contains(x) {
                            let k = choose|k: int| 0 <= k < next.len() && next[k] == x;
                            if k < j {
                                assert(group.user_ids@.subrange(0, j as int)[k] == x);
                            }
                        }
                        if group.user_ids@.subrange(0, j as int).contains(x) {
                            let k = choose|k: int| 0 <= k < j && group.user_ids@.subrange(0, j as int)[k] == x;
                            assert(next[k] == x);
                        }
                        if x == id {
                            assert(next[j as int] == x);
                        }
                    }
                    assert(map@ =~= base.union_prefer_right(
                        Map::new(|id: u64| next.contains(id), |id: u64| group.custom_name),
                    ));
                }
                j += 1;
            }
            proof {
                assert(group.user_ids@.subrange(0, group.user_ids@.len() as int) == group.user_ids@);
                assert(map@ =~= names_of(groups@, g as int + 1));
            }
            g += 1;
        }
        GiftRestrictionConfig { restrictions: map }
    }
}

} // verus!
