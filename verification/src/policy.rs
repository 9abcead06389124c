//! The response policy: the mode (enforce or monitor) and the list of blocked CIDR texts.
use vstd::prelude::*;

use crate::text::same_text;

verus! {

/// Which way the agent answers a destination on the block list.
#[derive(Debug, Clone, Copy, PartialEq, Eq, Structural)]
pub enum Mode {
    /// Listed destinations are refused (the connect call fails with EPERM).
    Enforce,
    /// Listed destinations are only observed and recorded; nothing is refused.
    Monitor,
}

/// The mode a policy takes when its document names none.
pub fn default_mode() -> (m: Mode)
    ensures
        m == Mode::Enforce,
{
    Mode::Enforce
}

/// The mode that an enforcement switch selects.
pub open spec fn mode_for(on: bool) -> Mode {
    if on {
        Mode::Enforce
    } else {
        Mode::Monitor
    }
}

impl Mode {
    /// The name of the mode as the policy document and the panel write it.
    pub fn as_str(&self) -> (s: &'static str)
        ensures
            s@ == (match *self {
                Mode::Enforce => "enforce"@,
                Mode::Monitor => "monitor"@,
            }),
    {
        match self {
            Mode::Enforce => "enforce",
            Mode::Monitor => "monitor",
        }
    }

    /// Whether listed destinations are refused in this mode.
    pub fn is_enforce(&self) -> (b: bool)
        ensures
            b == (*self == Mode::Enforce),
    {
        match self {
            Mode::Enforce => true,
            Mode::Monitor => false,
        }
    }

    /// The value of the kernel's control switch for this mode: 1 refuses listed
    /// destinations, 0 only observes them.
    pub fn control_value(&self) -> (v: u32)
        ensures
            v == (if *self == Mode::Enforce {
                1u32
            } else {
                0u32
            }),
    {
        match self {
            Mode::Enforce => 1,
            Mode::Monitor => 0,
        }
    }
}

/// The texts of a list of strings.
pub open spec fn texts(v: Seq<String>) -> Seq<Seq<char>> {
    v.map_values(|s: String| s@)
}

/// A block list with `spec` added at its end, unless it is already there.
pub open spec fn with_block(b: Seq<Seq<char>>, spec: Seq<char>) -> Seq<Seq<char>> {
    if b.contains(spec) {
        b
    } else {
        b.push(spec)
    }
}

/// A block list without any entry equal to `spec`, the others kept in their order.
pub open spec fn without_block(b: Seq<Seq<char>>, spec: Seq<char>) -> Seq<Seq<char>>
    decreases b.len(),
{
    if b.len() == 0 {
        b
    } else {
        let rest = without_block(b.drop_last(), spec);
        if b.last() == spec {
            rest
        } else {
            rest.push(b.last())
        }
    }
}

/// Whether no entry occurs twice in a block list.
pub open spec fn no_duplicates(b: Seq<Seq<char>>) -> bool {
    forall|i: int, j: int| 0 <= i < j < b.len() ==> b[i] != b[j]
}

/// The model of a policy.
pub struct PolicyView {
    pub mode: Mode,
    pub blocklist: Seq<Seq<char>>,
}

/// The response policy: the mode and the blocked IPs or CIDR blocks, as written.
#[derive(Debug)]
pub struct Policy {
    /// Enforce (refuse listed destinations) or monitor (only observe).
    pub mode: Mode,
    /// IPs or CIDR blocks to block, as written.
    pub blocklist: Vec<String>,
}

impl View for Policy {
    type V = PolicyView;

    open spec fn view(&self) -> PolicyView {
        PolicyView { mode: self.mode, blocklist: texts(self.blocklist@) }
    }
}

impl Default for Policy {
    /// Enforce mode with an empty block list.
    fn default() -> (p: Self)
        ensures
            p.mode == Mode::Enforce,
            p.blocklist@.len() == 0,
    {
        Policy { mode: Mode::Enforce, blocklist: Vec::new() }
    }
}

impl Policy {
    /// Whether `spec` is on the block list, written exactly so.
    pub fn lists(&self, spec: &str) -> (b: bool)
        ensures
            b == self@.blocklist.contains(spec@),
    {
        let mut i: usize = 0;
        while i < self.blocklist.len()
            invariant
                0 <= i <= self.blocklist.len(),
                forall|j: int| 0 <= j < i ==> self@.blocklist[j] != spec@,
            decreases self.blocklist.len() - i,
        {
            assert(self@.blocklist[i as int] == self.blocklist@[i as int]@);
            if same_text(self.blocklist[i].as_str(), spec) {
                return true;
            }
            i = i + 1;
        }
        proof {
            if self@.blocklist.contains(spec@) {
                let k = choose|k: int| 0 <= k < self@.blocklist.len() && self@.blocklist[k] == spec@;
                assert(self@.blocklist[k] != spec@);
            }
        }
        false
    }

    /// Adds `spec` at the end of the block list unless it is already listed. The mode
    /// does not change.
    pub fn add_block(&mut self, spec: String)
        ensures
            final(self)@.mode == old(self)@.mode,
            final(self)@.blocklist == with_block(old(self)@.blocklist, spec@),
    {
        if !self.lists(spec.as_str()) {
            let ghost before = self.blocklist@;
            self.blocklist.push(spec);
            proof {
                assert(texts(self.blocklist@) =~= texts(before).push(spec@));
            }
        }
    }

    /// Drops every entry written exactly as `spec` from the block list; the other entries keep
    /// their order. The mode does not change.
    pub fn remove_block(&mut self, spec: &str)
        ensures
            final(self)@.mode == old(self)@.mode,
            final(self)@.blocklist == without_block(old(self)@.blocklist, spec@),
    {
        let mut kept: Vec<String> = Vec::new();
        let mut i: usize = 0;
        let ghost b = self@.blocklist;
        while i < self.blocklist.len()
            invariant
                0 <= i <= self.blocklist.len(),
                b == self@.blocklist,
                texts(kept@) == without_block(b.take(i as int), spec@),
            decreases self.blocklist.len() - i,
        {
            assert(b.take(i + 1).drop_last() =~= b.take(i as int));
            assert(b.take(i + 1).last() == self.blocklist@[i as int]@);
            if !same_text(self.blocklist[i].as_str(), spec) {
                let ghost before = kept@;
                kept.push(self.blocklist[i].clone());
                assert(texts(kept@) =~= texts(before).push(b[i as int]));
            }
            i = i + 1;
        }
        assert(b.take(i as int) =~= b);
        self.blocklist = kept;
    }

    /// Sets the mode from an enforcement switch. The block list does not change.
    pub fn set_enforce(&mut self, on: bool)
        ensures
            final(self)@.mode == mode_for(on),
            final(self)@.blocklist == old(self)@.blocklist,
    {
        self.mode = if on {
            Mode::Enforce
        } else {
            Mode::Monitor
        };
    }

    /// A copy of the policy.
    pub fn duplicate(&self) -> (p: Policy)
        ensures
            p@ == self@,
    {
        let mut list: Vec<String> = Vec::new();
        let mut i: usize = 0;
        while i < self.blocklist.len()
            invariant
                0 <= i <= self.blocklist.len(),
                texts(list@) == self@.blocklist.take(i as int),
            decreases self.blocklist.len() - i,
        {
            let ghost before = list@;
            list.push(self.blocklist[i].clone());
            assert(texts(list@) =~= texts(before).push(self@.blocklist[i as int]));
            assert(self@.blocklist.take(i + 1) =~= self@.blocklist.take(i as int).push(
                self@.blocklist[i as int],
            ));
            i = i + 1;
        }
        assert(self@.blocklist.take(i as int) =~= self@.blocklist);
        Policy { mode: self.mode, blocklist: list }
    }
}

/// Removing an entry leaves only entries that differ from it.
pub proof fn lemma_without_block_members(b: Seq<Seq<char>>, spec: Seq<char>)
    ensures
        forall|x: Seq<char>| #[trigger]
            without_block(b, spec).contains(x) <==> (b.contains(x) && x != spec),
    decreases b.len(),
{
    if b.len() > 0 {
        lemma_without_block_members(b.drop_last(), spec);
        let rest = without_block(b.drop_last(), spec);
        assert forall|x: Seq<char>| #[trigger]
            without_block(b, spec).contains(x) <==> (b.contains(x) && x != spec) by {
            if b.contains(x) && x != spec {
                let k = choose|k: int| 0 <= k < b.len() && b[k] == x;
                if k < b.len() - 1 {
                    assert(b.drop_last()[k] == x);
                    assert(b.drop_last().contains(x));
                    assert(rest.contains(x));
                    let m = choose|m: int| 0 <= m < rest.len() && rest[m] == x;
                    if b.last() != spec {
                        assert(rest.push(b.last())[m] == x);
                    }
                } else {
                    assert(rest.push(b.last())[rest.len() as int] == x);
                }
            }
            if without_block(b, spec).contains(x) {
                let k = choose|k: int|
                    0 <= k < without_block(b, spec).len() && without_block(b, spec)[k] == x;
                if b.last() != spec && k == rest.len() {
                    assert(b[b.len() - 1] == x);
                } else {
                    assert(rest[k] == x);
                    assert(rest.contains(x));
                    assert(b.drop_last().contains(x));
                    let m = choose|m: int| 0 <= m < b.drop_last().len() && b.drop_last()[m] == x;
                    assert(b[m] == x);
                }
            }
        }
    } else {
        assert forall|x: Seq<char>| #[trigger]
            without_block(b, spec).contains(x) <==> (b.contains(x) && x != spec) by {
            if b.contains(x) {
                let k = choose|k: int| 0 <= k < b.len() && b[k] == x;
            }
        }
    }
}

/// Removing an entry that is not listed changes nothing.
pub proof fn lemma_without_absent(b: Seq<Seq<char>>, spec: Seq<char>)
    requires
        !b.contains(spec),
    ensures
        without_block(b, spec) == b,
    decreases b.len(),
{
    if b.len() > 0 {
        assert(!b.drop_last().contains(spec)) by {
            if b.drop_last().contains(spec) {
                let k = choose|k: int| 0 <= k < b.drop_last().len() && b.drop_last()[k] == spec;
                assert(b[k] == spec);
            }
        }
        lemma_without_absent(b.drop_last(), spec);
        assert(b.last() != spec) by {
            if b.last() == spec {
                assert(b[b.len() - 1] == spec);
            }
        }
        assert(b.drop_last().push(b.last()) =~= b);
    }
}

/// Law: after a block is added, the block list holds it.
pub proof fn law_added_block_is_listed(p: PolicyView, spec: Seq<char>)
    ensures
        with_block(p.blocklist, spec).contains(spec),
{
    if !p.blocklist.contains(spec) {
        assert(p.blocklist.push(spec)[p.blocklist.len() as int] == spec);
    }
}

/// Law: adding the same block twice gives the block list that adding it once gives.
pub proof fn law_add_block_idempotent(p: PolicyView, spec: Seq<char>)
    ensures
        with_block(with_block(p.blocklist, spec), spec) == with_block(p.blocklist, spec),
{
    law_added_block_is_listed(p, spec);
}

/// Law: after a block is removed, the block list no longer holds it, and holds every other
/// entry that it held.
pub proof fn law_removed_block_is_gone(p: PolicyView, spec: Seq<char>)
    ensures
        !without_block(p.blocklist, spec).contains(spec),
        forall|x: Seq<char>|
            x != spec && p.blocklist.contains(x) ==> #[trigger] without_block(
                p.blocklist,
                spec,
            ).contains(x),
{
    lemma_without_block_members(p.blocklist, spec);
}

/// Law: removing a block that was just added to a list that did not hold it gives back the
/// list as it was.
pub proof fn law_remove_undoes_add(p: PolicyView, spec: Seq<char>)
    requires
        !p.blocklist.contains(spec),
    ensures
        without_block(with_block(p.blocklist, spec), spec) == p.blocklist,
{
    let b = p.blocklist;
    assert(b.push(spec).drop_last() =~= b);
    lemma_without_absent(b, spec);
}

/// Law: adding and removing blocks keep a block list free of duplicates.
pub proof fn law_edits_keep_no_duplicates(p: PolicyView, spec: Seq<char>)
    requires
        no_duplicates(p.blocklist),
    ensures
        no_duplicates(with_block(p.blocklist, spec)),
        no_duplicates(without_block(p.blocklist, spec)),
    decreases p.blocklist.len(),
{
    let b = p.blocklist;
    if !b.contains(spec) {
        assert forall|i: int, j: int| 0 <= i < j < b.push(spec).len() implies b.push(spec)[i]
            != b.push(spec)[j] by {
            if j == b.len() {
                assert(b[i] != spec);
            }
        }
    }
    if b.len() > 0 {
        let q = PolicyView { mode: p.mode, blocklist: b.drop_last() };
        law_edits_keep_no_duplicates(q, spec);
        let rest = without_block(b.drop_last(), spec);
        if b.last() != spec {
            lemma_without_block_members(b.drop_last(), spec);
            assert forall|i: int, j: int| 0 <= i < j < rest.push(b.last()).len() implies rest.push(
                b.last(),
            )[i] != rest.push(b.last())[j] by {
                if j == rest.len() {
                    assert(rest.contains(rest[i]));
                    let m = choose|m: int| 0 <= m < b.drop_last().len() && b.drop_last()[m] == rest[i];
                    assert(b[m] == rest[i]);
                    assert(b[m] != b[b.len() - 1]);
                }
            }
        }
    }
}

} // verus!
