//! The decisions of the actor that owns the kernel maps. For each order it first decides what
//! to write to the maps (a plan); once the writes are done, it updates the policy and says
//! whether the policy must be saved and whether the agent keeps running.
use vstd::prelude::*;

use crate::net::{
    block_meets_loopback, cidr_block, cidr_key, in_block, is_loopback_addr,
    law_cidr_block_is_network, law_meets_loopback_exact, law_network_order_round_trip,
    meets_loopback, parse_cidr, parse_cidr_block, to_network_order, to_network_spec, CidrError,
    CidrFault,
};
use crate::policy::{mode_for, with_block, without_block, Mode, Policy};
use crate::state::Command;

verus! {

/// Why an order names a block that is not written to the kernel map.
#[derive(Debug)]
pub enum Skipped {
    /// The block holds a loopback address: blocking it would lock the panel out.
    Loopback(String),
    /// The text is no CIDR block.
    Invalid(String, CidrError),
}

/// What the actor does to the kernel maps for one order.
#[derive(Debug)]
pub enum Plan {
    /// Insert the key into the block map; on success, add the text to the policy.
    Block { spec: String, key: u32, prefix: u32 },
    /// Remove the key from the block map and the text from the policy.
    Unblock { spec: String, key: u32, prefix: u32 },
    /// Write the control switch and set the policy's mode.
    Enforce { on: bool },
    /// Empty the block map, insert the keys in order, write the control switch for the new
    /// mode, and take the new policy as it is.
    Replace { entries: Vec<(u32, u32)>, policy: Policy },
    /// Write nothing.
    Skip(Skipped),
    /// Stop the agent.
    Stop,
}

/// The key that a block text puts in the map when the actor adds it: none for a text that is
/// no CIDR block, and none for a block that holds any loopback address (blocking one would
/// lock the panel out).
pub open spec fn block_key(spec: Seq<char>) -> Option<(u32, u32)> {
    match cidr_block(spec) {
        Ok((net, prefix)) => if meets_loopback(net, prefix) {
            None
        } else {
            Some((to_network_spec(net), prefix))
        },
        Err(_) => None,
    }
}

/// The keys that a replacing policy's block list puts in the map, in order.
pub open spec fn replace_entries(list: Seq<Seq<char>>) -> Seq<(u32, u32)>
    decreases list.len(),
{
    if list.len() == 0 {
        Seq::<(u32, u32)>::empty()
    } else {
        let rest = replace_entries(list.drop_last());
        match block_key(list.last()) {
            Some(k) => rest.push(k),
            None => rest,
        }
    }
}

/// The keys that the block list puts in the map at start-up, in order, leaving out blocks
/// that hold a loopback address; or the error of the first text that is no CIDR block.
pub open spec fn startup_entries(list: Seq<Seq<char>>) -> Result<Seq<(u32, u32)>, CidrFault>
    decreases list.len(),
{
    if list.len() == 0 {
        Ok(Seq::<(u32, u32)>::empty())
    } else {
        match startup_entries(list.drop_last()) {
            Err(e) => Err(e),
            Ok(rest) => match cidr_block(list.last()) {
                Ok(_) => match block_key(list.last()) {
                    Some(k) => Ok(rest.push(k)),
                    None => Ok(rest),
                },
                Err(e) => Err(e),
            },
        }
    }
}

/// Whether `plan` is what the actor decides for `cmd`.
pub open spec fn plans(cmd: Command, plan: Plan) -> bool {
    match cmd {
        Command::AddBlock(s) => match cidr_block(s@) {
            Err(f) => plan matches Plan::Skip(Skipped::Invalid(t, e)) && t@ == s@ && e@ == f,
            Ok((net, p)) => if meets_loopback(net, p) {
                plan matches Plan::Skip(Skipped::Loopback(t)) && t@ == s@
            } else {
                plan matches Plan::Block { spec, key, prefix } && spec@ == s@ && key
                    == to_network_spec(net) && prefix == p
            },
        },
        Command::RemoveBlock(s) => match cidr_key(s@) {
            Err(f) => plan matches Plan::Skip(Skipped::Invalid(t, e)) && t@ == s@ && e@ == f,
            Ok((k, p)) => plan matches Plan::Unblock { spec, key, prefix } && spec@ == s@ && key
                == k && prefix == p,
        },
        Command::SetEnforce(on) => plan == Plan::Enforce { on },
        Command::ReplacePolicy(p) => plan matches Plan::Replace { entries, policy } && entries@
            == replace_entries(p@.blocklist) && policy@ == p@,
        Command::Shutdown => plan is Stop,
    }
}

/// The value written to the control switch under a plan, if it writes one.
pub open spec fn plan_control(plan: Plan) -> Option<u32> {
    match plan {
        Plan::Enforce { on } => Some(
            if on {
                1u32
            } else {
                0u32
            },
        ),
        Plan::Replace { policy, .. } => Some(
            if policy.mode == Mode::Enforce {
                1u32
            } else {
                0u32
            },
        ),
        _ => None,
    }
}

/// Reads a block text into the key it puts in the map: `Ok(None)` for a block that holds a
/// loopback address, the parse error for a text that is no CIDR block.
pub fn block_key_of(spec: &str) -> (r: Result<Option<(u32, u32)>, CidrError>)
    ensures
        match r {
            Ok(k) => cidr_block(spec@) is Ok && k == block_key(spec@),
            Err(e) => cidr_block(spec@) == Err::<(u32, u32), CidrFault>(e@),
        },
{
    match parse_cidr_block(spec) {
        Ok((net, prefix)) => {
            if block_meets_loopback(net, prefix) {
                Ok(None)
            } else {
                Ok(Some((to_network_order(net), prefix)))
            }
        },
        Err(e) => Err(e),
    }
}

/// The keys for the block texts of a replacing policy, in order: blocks that hold a loopback
/// address and texts that are no CIDR block are left out.
pub fn replacement_entries(policy: &Policy) -> (r: Vec<(u32, u32)>)
    ensures
        r@ == replace_entries(policy@.blocklist),
{
    let ghost list = policy@.blocklist;
    let mut out: Vec<(u32, u32)> = Vec::new();
    let mut i: usize = 0;
    while i < policy.blocklist.len()
        invariant
            0 <= i <= policy.blocklist.len(),
            list == policy@.blocklist,
            out@ == replace_entries(list.take(i as int)),
        decreases policy.blocklist.len() - i,
    {
        let spec = policy.blocklist[i].as_str();
        assert(list.take(i + 1).drop_last() =~= list.take(i as int));
        assert(list.take(i + 1).last() == spec@);
        if let Ok(Some(k)) = block_key_of(spec) {
            out.push(k);
        }
        i = i + 1;
    }
    assert(list.take(i as int) =~= list);
    out
}

/// The keys that the policy's block list puts in the kernel map when the agent starts, in
/// order, leaving out blocks that hold a loopback address; or the error of the first text that
/// is no CIDR block (the agent then does not start).
pub fn startup_keys(policy: &Policy) -> (r: Result<Vec<(u32, u32)>, CidrError>)
    ensures
        match r {
            Ok(v) => startup_entries(policy@.blocklist) == Ok::<Seq<(u32, u32)>, CidrFault>(v@),
            Err(e) => startup_entries(policy@.blocklist) == Err::<Seq<(u32, u32)>, CidrFault>(e@),
        },
{
    let ghost list = policy@.blocklist;
    let mut out: Vec<(u32, u32)> = Vec::new();
    let mut i: usize = 0;
    while i < policy.blocklist.len()
        invariant
            0 <= i <= policy.blocklist.len(),
            list == policy@.blocklist,
            startup_entries(list.take(i as int)) == Ok::<Seq<(u32, u32)>, CidrFault>(out@),
        decreases policy.blocklist.len() - i,
    {
        let spec = policy.blocklist[i].as_str();
        assert(list.take(i + 1).drop_last() =~= list.take(i as int));
        assert(list.take(i + 1).last() == spec@);
        match block_key_of(spec) {
            Ok(Some(k)) => {
                out.push(k);
            },
            Ok(None) => {},
            Err(e) => {
                proof {
                    lemma_startup_error_stays(list, i as int + 1);
                }
                return Err(e);
            },
        }
        i = i + 1;
    }
    assert(list.take(i as int) =~= list);
    Ok(out)
}

/// Once a prefix of the block list holds a text that is no CIDR block, the whole list fails
/// with that text's error.
pub proof fn lemma_startup_error_stays(list: Seq<Seq<char>>, k: int)
    requires
        0 <= k <= list.len(),
        startup_entries(list.take(k)) is Err,
    ensures
        startup_entries(list) == startup_entries(list.take(k)),
    decreases list.len() - k,
{
    if k < list.len() {
        assert(list.take(k + 1).drop_last() =~= list.take(k));
        lemma_startup_error_stays(list, k + 1);
    } else {
        assert(list.take(k) =~= list);
    }
}

/// Decides what to write to the kernel maps for `cmd`. A block that holds any loopback
/// address is never planned: it protects the access to the panel.
pub fn plan_command(cmd: Command) -> (plan: Plan)
    ensures
        plans(cmd, plan),
{
    match cmd {
        Command::AddBlock(spec) => match block_key_of(spec.as_str()) {
            Err(e) => Plan::Skip(Skipped::Invalid(spec, e)),
            Ok(None) => Plan::Skip(Skipped::Loopback(spec)),
            Ok(Some((key, prefix))) => Plan::Block { spec, key, prefix },
        },
        Command::RemoveBlock(spec) => match parse_cidr(spec.as_str()) {
            Err(e) => Plan::Skip(Skipped::Invalid(spec, e)),
            Ok((key, prefix)) => Plan::Unblock { spec, key, prefix },
        },
        Command::SetEnforce(on) => Plan::Enforce { on },
        Command::ReplacePolicy(policy) => {
            let entries = replacement_entries(&policy);
            Plan::Replace { entries, policy }
        },
        Command::Shutdown => Plan::Stop,
    }
}

impl Plan {
    /// The value to write to the control switch under this plan, if it writes one: 1 to
    /// refuse listed destinations, 0 to only observe them.
    pub fn control(&self) -> (v: Option<u32>)
        ensures
            v == plan_control(*self),
    {
        match self {
            Plan::Enforce { on } => Some(
                if *on {
                    1
                } else {
                    0
                },
            ),
            Plan::Replace { policy, .. } => Some(policy.mode.control_value()),
            _ => None,
        }
    }
}

/// What the actor does after a plan's writes.
pub struct Completion {
    /// The policy changed and is to be saved.
    pub persist: bool,
    /// The agent keeps running.
    pub running: bool,
}

/// The actor's own state: the policy in force and whether listed destinations are refused.
pub struct Agent {
    /// The policy in force.
    pub policy: Policy,
    /// Whether listed destinations are refused.
    pub enforcing: bool,
}

impl Agent {
    /// Whether the enforcement flag agrees with the policy's mode.
    pub open spec fn wf(&self) -> bool {
        self.enforcing == (self.policy.mode == Mode::Enforce)
    }

    /// The actor's state for a policy: enforcing exactly when the policy's mode is enforce.
    pub fn new(policy: Policy) -> (a: Agent)
        ensures
            a.wf(),
            a.policy == policy,
    {
        let enforcing = policy.mode.is_enforce();
        Agent { policy, enforcing }
    }

    /// Updates the policy once the plan's writes are done; `map_ok` says whether the block
    /// map accepted the insertion of a `Block` plan (it matters for no other plan).
    pub fn complete(&mut self, plan: Plan, map_ok: bool) -> (c: Completion)
        requires
            old(self).wf(),
        ensures
            final(self).wf(),
            plan_control(plan) matches Some(v) ==> v == (if final(self).enforcing {
                1u32
            } else {
                0u32
            }),
            c.running == !(plan is Stop),
            match plan {
                Plan::Block { spec, .. } => if map_ok {
                    &&& final(self).policy@.mode == old(self).policy@.mode
                    &&& final(self).policy@.blocklist == with_block(
                        old(self).policy@.blocklist,
                        spec@,
                    )
                    &&& c.persist
                } else {
                    final(self).policy@ == old(self).policy@ && !c.persist
                },
                Plan::Unblock { spec, .. } => {
                    &&& final(self).policy@.mode == old(self).policy@.mode
                    &&& final(self).policy@.blocklist == without_block(
                        old(self).policy@.blocklist,
                        spec@,
                    )
                    &&& c.persist
                },
                Plan::Enforce { on } => {
                    &&& final(self).policy@.mode == mode_for(on)
                    &&& final(self).policy@.blocklist == old(self).policy@.blocklist
                    &&& c.persist
                },
                Plan::Replace { policy, .. } => final(self).policy@ == policy@ && c.persist,
                Plan::Skip(_) => final(self).policy@ == old(self).policy@ && !c.persist,
                Plan::Stop => final(self).policy@ == old(self).policy@ && !c.persist,
            },
    {
        match plan {
            Plan::Block { spec, .. } => {
                if map_ok {
                    self.policy.add_block(spec);
                    Completion { persist: true, running: true }
                } else {
                    Completion { persist: false, running: true }
                }
            },
            Plan::Unblock { spec, .. } => {
                self.policy.remove_block(spec.as_str());
                Completion { persist: true, running: true }
            },
            Plan::Enforce { on } => {
                self.enforcing = on;
                self.policy.set_enforce(on);
                Completion { persist: true, running: true }
            },
            Plan::Replace { policy, .. } => {
                self.enforcing = policy.mode.is_enforce();
                self.policy = policy;
                Completion { persist: true, running: true }
            },
            Plan::Skip(_) => Completion { persist: false, running: true },
            Plan::Stop => Completion { persist: false, running: false },
        }
    }
}

} // verus!

verus! {

/// Whether no loopback address lies in the block that a map key denotes. The key holds the
/// network in network byte order; converting it back gives the host-order network that the
/// kernel's longest-prefix match compares destinations with.
pub open spec fn spares_loopback(key: (u32, u32)) -> bool {
    forall|a: u32| #[trigger] is_loopback_addr(a) ==> !in_block(a, to_network_spec(key.0), key.1)
}

/// A key that a block text puts in the map spares the loopback.
pub proof fn lemma_block_key_spares_loopback(spec: Seq<char>)
    requires
        block_key(spec) is Some,
    ensures
        spares_loopback(block_key(spec)->Some_0),
{
    law_cidr_block_is_network(spec);
    let (net, p) = cidr_block(spec)->Ok_0;
    law_network_order_round_trip(net);
    assert forall|a: u32| #[trigger] is_loopback_addr(a) implies !in_block(
        a,
        to_network_spec(block_key(spec)->Some_0.0),
        block_key(spec)->Some_0.1,
    ) by {
        law_meets_loopback_exact(net, p, a);
    }
}

/// Law: the block that an order to add a block plans to insert holds no loopback address,
/// whatever its prefix (so `0.0.0.0/0` or `64.0.0.0/2` is never inserted). The access to the
/// panel stays open.
pub proof fn law_added_block_spares_loopback(cmd: Command, plan: Plan)
    requires
        plans(cmd, plan),
    ensures
        plan matches Plan::Block { key, prefix, .. } ==> spares_loopback((key, prefix)),
{
    if let Command::AddBlock(s) = cmd {
        if let Plan::Block { key, prefix, .. } = plan {
            assert(block_key(s@) == Some((key, prefix)));
            lemma_block_key_spares_loopback(s@);
        }
    }
}

/// Law: no key that a replacing policy puts in the block map holds a loopback address.
pub proof fn law_replacement_spares_loopback(list: Seq<Seq<char>>)
    ensures
        forall|k: int|
            0 <= k < replace_entries(list).len() ==> spares_loopback(
                #[trigger] replace_entries(list)[k],
            ),
    decreases list.len(),
{
    if list.len() > 0 {
        law_replacement_spares_loopback(list.drop_last());
        if block_key(list.last()) is Some {
            lemma_block_key_spares_loopback(list.last());
        }
        let r = replace_entries(list.drop_last());
        assert forall|k: int| 0 <= k < replace_entries(list).len() implies spares_loopback(
            #[trigger] replace_entries(list)[k],
        ) by {
            if k < r.len() {
                assert(replace_entries(list)[k] == r[k]);
            }
        }
    }
}

/// Law: no key that the block list puts in the block map at start-up holds a loopback address,
/// so a policy saved from the panel cannot lock the panel out after a restart either.
pub proof fn law_startup_spares_loopback(list: Seq<Seq<char>>)
    requires
        startup_entries(list) is Ok,
    ensures
        forall|k: int|
            0 <= k < startup_entries(list)->Ok_0.len() ==> spares_loopback(
                #[trigger] startup_entries(list)->Ok_0[k],
            ),
    decreases list.len(),
{
    if list.len() > 0 {
        law_startup_spares_loopback(list.drop_last());
        if block_key(list.last()) is Some {
            lemma_block_key_spares_loopback(list.last());
        }
        let r = startup_entries(list.drop_last())->Ok_0;
        assert forall|k: int| 0 <= k < startup_entries(list)->Ok_0.len() implies spares_loopback(
            #[trigger] startup_entries(list)->Ok_0[k],
        ) by {
            if k < r.len() {
                assert(startup_entries(list)->Ok_0[k] == r[k]);
            }
        }
    }
}

} // verus!

verus! {

/// Law: a replacing policy's keys are those of its parts: the keys of a list made of two
/// lists are the keys of the first followed by the keys of the second.
pub proof fn law_replacement_joins(l1: Seq<Seq<char>>, l2: Seq<Seq<char>>)
    ensures
        replace_entries(l1 + l2) == replace_entries(l1) + replace_entries(l2),
    decreases l2.len(),
{
    if l2.len() == 0 {
        assert(l1 + l2 =~= l1);
        assert(replace_entries(l1) + replace_entries(l2) =~= replace_entries(l1));
    } else {
        law_replacement_joins(l1, l2.drop_last());
        assert((l1 + l2).drop_last() =~= l1 + l2.drop_last());
        assert((l1 + l2).last() == l2.last());
        assert(replace_entries(l1 + l2) =~= replace_entries(l1) + replace_entries(l2));
    }
}

/// Law: a single block text of a replacing policy contributes exactly the key of the block it
/// denotes (its network, host bits cleared, in network byte order, with its prefix) when it is
/// a CIDR block that holds no loopback address, and nothing otherwise.
pub proof fn law_replacement_single(s: Seq<char>)
    ensures
        cidr_block(s) is Ok && !meets_loopback(cidr_block(s)->Ok_0.0, cidr_block(s)->Ok_0.1) ==> replace_entries(seq![s])
            == seq![(to_network_spec(cidr_block(s)->Ok_0.0), cidr_block(s)->Ok_0.1)],
        !(cidr_block(s) is Ok && !meets_loopback(cidr_block(s)->Ok_0.0, cidr_block(s)->Ok_0.1)) ==> replace_entries(
            seq![s],
        ).len() == 0,
{
    assert(seq![s].drop_last() =~= Seq::<Seq<char>>::empty());
    assert(seq![s].last() == s);
    assert(replace_entries(Seq::<Seq<char>>::empty()) == Seq::<(u32, u32)>::empty());
    assert(replace_entries(seq![s]) == (match block_key(s) {
        Some(k) => Seq::<(u32, u32)>::empty().push(k),
        None => Seq::<(u32, u32)>::empty(),
    }));
    assert(Seq::<(u32, u32)>::empty().push((to_network_spec(cidr_block(s)->Ok_0.0), cidr_block(s)->Ok_0.1)) =~= seq![(to_network_spec(cidr_block(s)->Ok_0.0), cidr_block(s)->Ok_0.1)]);
}

/// Law: every text of a replacing policy that is a CIDR block holding no loopback address
/// puts its key in the map, whatever host bits the text writes.
pub proof fn law_replacement_complete(list: Seq<Seq<char>>, i: int)
    requires
        0 <= i < list.len(),
        cidr_block(list[i]) is Ok,
        !meets_loopback(cidr_block(list[i])->Ok_0.0, cidr_block(list[i])->Ok_0.1),
    ensures
        replace_entries(list).contains(
            (to_network_spec(cidr_block(list[i])->Ok_0.0), cidr_block(list[i])->Ok_0.1),
        ),
{
    let k = (to_network_spec(cidr_block(list[i])->Ok_0.0), cidr_block(list[i])->Ok_0.1);
    let a = list.take(i);
    let b = list.skip(i + 1);
    assert(list =~= a + seq![list[i]] + b);
    law_replacement_joins(a + seq![list[i]], b);
    law_replacement_joins(a, seq![list[i]]);
    law_replacement_single(list[i]);
    let r = replace_entries(list);
    assert(r[replace_entries(a).len() as int] == k);
}

/// Law: start-up over a list made of two lists fails with the first list's error, else with
/// the second's, and otherwise loads the keys of the first followed by those of the second.
pub proof fn law_startup_joins(l1: Seq<Seq<char>>, l2: Seq<Seq<char>>)
    ensures
        startup_entries(l1 + l2) == (match startup_entries(l1) {
            Err(e) => Err(e),
            Ok(a) => match startup_entries(l2) {
                Err(e) => Err(e),
                Ok(b) => Ok(a + b),
            },
        }),
    decreases l2.len(),
{
    if l2.len() == 0 {
        assert(l1 + l2 =~= l1);
        if let Ok(a) = startup_entries(l1) {
            assert(a + Seq::<(u32, u32)>::empty() =~= a);
        }
    } else {
        law_startup_joins(l1, l2.drop_last());
        assert((l1 + l2).drop_last() =~= l1 + l2.drop_last());
        assert((l1 + l2).last() == l2.last());
        if let Ok(a) = startup_entries(l1) {
            if let Ok(b) = startup_entries(l2.drop_last()) {
                if let Some(k) = block_key(l2.last()) {
                    assert((a + b).push(k) =~= a + b.push(k));
                }
            }
        }
    }
}

/// Law: at start-up a single block text fails with its own error when it is no CIDR block,
/// loads nothing when its block holds a loopback address, and otherwise loads exactly the key of
/// its block (network with host bits cleared, in network byte order, with its prefix).
pub proof fn law_startup_single(s: Seq<char>)
    ensures
        cidr_block(s) matches Err(f) ==> startup_entries(seq![s]) == Err::<Seq<(u32, u32)>, CidrFault>(f),
        cidr_block(s) is Ok && meets_loopback(cidr_block(s)->Ok_0.0, cidr_block(s)->Ok_0.1) ==> startup_entries(seq![s])
            == Ok::<Seq<(u32, u32)>, CidrFault>(Seq::<(u32, u32)>::empty()),
        cidr_block(s) is Ok && !meets_loopback(cidr_block(s)->Ok_0.0, cidr_block(s)->Ok_0.1) ==> startup_entries(seq![s])
            == Ok::<Seq<(u32, u32)>, CidrFault>(seq![(to_network_spec(cidr_block(s)->Ok_0.0), cidr_block(s)->Ok_0.1)]),
{
    assert(seq![s].drop_last() =~= Seq::<Seq<char>>::empty());
    assert(seq![s].last() == s);
    assert(startup_entries(Seq::<Seq<char>>::empty()) == Ok::<Seq<(u32, u32)>, CidrFault>(Seq::<(u32, u32)>::empty()));
    assert(Seq::<(u32, u32)>::empty().push((to_network_spec(cidr_block(s)->Ok_0.0), cidr_block(s)->Ok_0.1)) =~= seq![(to_network_spec(cidr_block(s)->Ok_0.0), cidr_block(s)->Ok_0.1)]);
}

/// Law: when start-up succeeds it loads exactly the keys that replacing the policy with the
/// same block list would load.
pub proof fn law_startup_matches_replacement(list: Seq<Seq<char>>)
    requires
        startup_entries(list) is Ok,
    ensures
        startup_entries(list) == Ok::<Seq<(u32, u32)>, CidrFault>(replace_entries(list)),
    decreases list.len(),
{
    if list.len() > 0 {
        law_startup_matches_replacement(list.drop_last());
    }
}

/// Law: when start-up succeeds, every listed text whose block holds no loopback address loads
/// its key.
pub proof fn law_startup_complete(list: Seq<Seq<char>>, i: int)
    requires
        startup_entries(list) is Ok,
        0 <= i < list.len(),
        cidr_block(list[i]) is Ok,
        !meets_loopback(cidr_block(list[i])->Ok_0.0, cidr_block(list[i])->Ok_0.1),
    ensures
        startup_entries(list)->Ok_0.contains(
            (to_network_spec(cidr_block(list[i])->Ok_0.0), cidr_block(list[i])->Ok_0.1),
        ),
{
    law_startup_matches_replacement(list);
    law_replacement_complete(list, i);
}

} // verus!
