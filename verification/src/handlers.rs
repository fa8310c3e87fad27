//! The registry of override handlers, keyed by owner, status kind and sub-script.

use vstd::prelude::*;
use crate::text::same_name;

verus! {

/// One registered override.
#[derive(Clone, Copy, Debug, PartialEq, Eq)]
pub struct HandlerEntry {
    /// The status kind that the override is for.
    pub status_kind: i32,
    /// The sub-script of that status that the override is for.
    pub sub_script: i32,
    /// Address of the consumer's handler.
    pub override_fn: u64,
    /// Address of the handler that the override displaced, once the shim has
    /// seen the host install it. Until then the entry has only the stub.
    pub original_fn: Option<u64>,
}

impl HandlerEntry {
    /// Whether the entry is registered under `(status_kind, sub_script)`.
    pub open spec fn has_key(self, status_kind: i32, sub_script: i32) -> bool {
        self.status_kind == status_kind && self.sub_script == sub_script
    }

    /// The entry with `addr` as its captured original.
    pub open spec fn with_original(self, addr: u64) -> HandlerEntry {
        HandlerEntry { original_fn: Some(addr), ..self }
    }
}

/// `i` is the position of the first entry of `entries` under the key.
pub open spec fn is_first_match(
    entries: Seq<HandlerEntry>,
    status_kind: i32,
    sub_script: i32,
    i: int,
) -> bool {
    &&& 0 <= i < entries.len()
    &&& entries[i].has_key(status_kind, sub_script)
    &&& forall|j: int| 0 <= j < i ==> !(#[trigger] entries[j]).has_key(status_kind, sub_script)
}

/// The position of the entry that dispatch and capture act on for the key:
/// the first in registration order.
pub open spec fn first_match(entries: Seq<HandlerEntry>, status_kind: i32, sub_script: i32) -> Option<
    int,
> {
    if exists|i: int| is_first_match(entries, status_kind, sub_script, i) {
        Some(choose|i: int| is_first_match(entries, status_kind, sub_script, i))
    } else {
        None
    }
}

/// A position that meets [`is_first_match`] is the one that [`first_match`] gives.
pub proof fn lemma_first_match_found(
    entries: Seq<HandlerEntry>,
    status_kind: i32,
    sub_script: i32,
    i: int,
)
    requires
        is_first_match(entries, status_kind, sub_script, i),
    ensures
        first_match(entries, status_kind, sub_script) == Some(i),
{
    let k = choose|k: int| is_first_match(entries, status_kind, sub_script, k);
    assert(k == i) by {
        if k < i {
            assert(!entries[k].has_key(status_kind, sub_script));
        } else if i < k {
            assert(!entries[i].has_key(status_kind, sub_script));
        }
    }
}

/// A key that no entry carries has no first match.
pub proof fn lemma_first_match_absent(entries: Seq<HandlerEntry>, status_kind: i32, sub_script: i32)
    requires
        forall|j: int|
            0 <= j < entries.len() ==> !(#[trigger] entries[j]).has_key(status_kind, sub_script),
    ensures
        first_match(entries, status_kind, sub_script) is None,
{
}

/// The overrides of one owner, in registration order.
struct OwnerHandlers {
    owner: String,
    entries: Vec<HandlerEntry>,
}

/// `owner` stands at position `i`.
spec fn owner_at(g: Seq<OwnerHandlers>, owner: Seq<char>, i: int) -> bool {
    0 <= i < g.len() && g[i].owner@ == owner
}

/// No owner stands at two positions.
spec fn owners_distinct(g: Seq<OwnerHandlers>) -> bool {
    forall|i: int, j: int| 0 <= i < j < g.len() ==> (#[trigger] g[i]).owner@ != (#[trigger] g[j]).owner@
}

/// The lists of `g`, each under its owner's name.
spec fn as_map(g: Seq<OwnerHandlers>) -> Map<Seq<char>, Seq<HandlerEntry>> {
    Map::new(
        |owner: Seq<char>| exists|i: int| owner_at(g, owner, i),
        |owner: Seq<char>| g[choose|i: int| owner_at(g, owner, i)].entries@,
    )
}

/// The map holds, under the owner at `i`, the entries at `i`.
proof fn lemma_as_map_at(g: Seq<OwnerHandlers>, i: int)
    requires
        owners_distinct(g),
        0 <= i < g.len(),
    ensures
        as_map(g).contains_key(g[i].owner@),
        as_map(g)[g[i].owner@] == g[i].entries@,
{
    let owner = g[i].owner@;
    assert(owner_at(g, owner, i));
    let k = choose|k: int| owner_at(g, owner, k);
    assert(k == i) by {
        if k < i {
            assert(g[k].owner@ != g[i].owner@);
        } else if i < k {
            assert(g[i].owner@ != g[k].owner@);
        }
    }
}

/// The map has no key for an owner that stands nowhere.
proof fn lemma_as_map_absent(g: Seq<OwnerHandlers>, owner: Seq<char>)
    requires
        forall|i: int| 0 <= i < g.len() ==> (#[trigger] g[i]).owner@ != owner,
    ensures
        !as_map(g).contains_key(owner),
{
    assert forall|i: int| !owner_at(g, owner, i) by {
        if 0 <= i < g.len() {
            assert(g[i].owner@ != owner);
        }
    }
}

/// Changing the entries of the owner at `i` changes the map at that owner only.
proof fn lemma_as_map_replace(g: Seq<OwnerHandlers>, h: Seq<OwnerHandlers>, i: int)
    requires
        owners_distinct(g),
        0 <= i < g.len(),
        h.len() == g.len(),
        h[i].owner@ == g[i].owner@,
        forall|j: int| 0 <= j < g.len() && j != i ==> h[j] == g[j],
    ensures
        owners_distinct(h),
        as_map(h) == as_map(g).insert(g[i].owner@, h[i].entries@),
{
    assert forall|a: int, b: int| 0 <= a < b < h.len() implies (#[trigger] h[a]).owner@ != (
    #[trigger] h[b]).owner@ by {
        assert(h[a].owner@ == g[a].owner@);
        assert(h[b].owner@ == g[b].owner@);
        assert(g[a].owner@ != g[b].owner@);
    }
    let target = as_map(g).insert(g[i].owner@, h[i].entries@);
    assert forall|owner: Seq<char>| #[trigger]
        as_map(h).contains_key(owner) == target.contains_key(owner) by {
        if as_map(h).contains_key(owner) {
            let k = choose|k: int| owner_at(h, owner, k);
            assert(owner_at(g, owner, k));
        }
        if target.contains_key(owner) && owner != g[i].owner@ {
            let k = choose|k: int| owner_at(g, owner, k);
            assert(owner_at(h, owner, k));
        }
        if owner == g[i].owner@ {
            assert(owner_at(h, owner, i));
        }
    }
    assert forall|owner: Seq<char>| as_map(h).contains_key(owner) implies #[trigger] as_map(h)[owner]
        == target[owner] by {
        let k = choose|k: int| owner_at(h, owner, k);
        lemma_as_map_at(h, k);
        if k != i {
            lemma_as_map_at(g, k);
        }
    }
    assert(as_map(h) =~= target);
}

/// A new owner at the end adds one key to the map.
proof fn lemma_as_map_push(g: Seq<OwnerHandlers>, x: OwnerHandlers)
    requires
        owners_distinct(g),
        forall|i: int| 0 <= i < g.len() ==> (#[trigger] g[i]).owner@ != x.owner@,
    ensures
        owners_distinct(g.push(x)),
        as_map(g.push(x)) == as_map(g).insert(x.owner@, x.entries@),
{
    let h = g.push(x);
    assert forall|a: int, b: int| 0 <= a < b < h.len() implies (#[trigger] h[a]).owner@ != (
    #[trigger] h[b]).owner@ by {
        if b < g.len() {
            assert(g[a].owner@ != g[b].owner@);
        } else {
            assert(g[a].owner@ != x.owner@);
        }
    }
    let target = as_map(g).insert(x.owner@, x.entries@);
    assert forall|owner: Seq<char>| #[trigger]
        as_map(h).contains_key(owner) == target.contains_key(owner) by {
        if as_map(h).contains_key(owner) {
            let k = choose|k: int| owner_at(h, owner, k);
            if k < g.len() {
                assert(owner_at(g, owner, k));
            }
        }
        if as_map(g).contains_key(owner) {
            let k = choose|k: int| owner_at(g, owner, k);
            assert(owner_at(h, owner, k));
        }
        if owner == x.owner@ {
            assert(owner_at(h, owner, g.len() as int));
        }
    }
    assert forall|owner: Seq<char>| as_map(h).contains_key(owner) implies #[trigger] as_map(h)[owner]
        == target[owner] by {
        let k = choose|k: int| owner_at(h, owner, k);
        lemma_as_map_at(h, k);
        if k < g.len() {
            lemma_as_map_at(g, k);
        }
    }
    assert(as_map(h) =~= target);
}

/// The entries registered for `owner`; none for an owner that the registry
/// does not know.
pub open spec fn entries_of(m: Map<Seq<char>, Seq<HandlerEntry>>, owner: Seq<char>) -> Seq<
    HandlerEntry,
> {
    if m.contains_key(owner) {
        m[owner]
    } else {
        Seq::empty()
    }
}

/// The registry after `entry` was registered for `owner`: the entry stands at
/// the end of the owner's list, whatever the list already holds.
pub open spec fn registered(
    m: Map<Seq<char>, Seq<HandlerEntry>>,
    owner: Seq<char>,
    entry: HandlerEntry,
) -> Map<Seq<char>, Seq<HandlerEntry>> {
    m.insert(owner, entries_of(m, owner).push(entry))
}

/// The handler that is installed in place of one that `owner` brings for the
/// key: the override of the first matching entry, if there is one.
pub open spec fn substitute(
    m: Map<Seq<char>, Seq<HandlerEntry>>,
    owner: Seq<char>,
    status_kind: i32,
    sub_script: i32,
) -> Option<u64> {
    match first_match(entries_of(m, owner), status_kind, sub_script) {
        Some(i) => Some(entries_of(m, owner)[i].override_fn),
        None => None,
    }
}

/// The registry after the host was seen installing `addr` for the key on
/// behalf of `owner`: the first matching entry has `addr` as its original, and
/// nothing else has changed.
pub open spec fn captured(
    m: Map<Seq<char>, Seq<HandlerEntry>>,
    owner: Seq<char>,
    status_kind: i32,
    sub_script: i32,
    addr: u64,
) -> Map<Seq<char>, Seq<HandlerEntry>> {
    match first_match(entries_of(m, owner), status_kind, sub_script) {
        Some(i) => m.insert(owner, m[owner].update(i, m[owner][i].with_original(addr))),
        None => m,
    }
}

/// Value that stands in for a handler's result when no original can be called.
pub const SENTINEL: u64 = 0;

/// The line that the stub reports.
pub const STUB_DIAGNOSTIC: &'static str = "[status_kind] ERROR: Original func was not set!";

/// The line that is reported for an owner without entries.
pub const NOT_SET_DIAGNOSTIC: &'static str = "[status_hook] ERROR: Could not find original function!";

/// What a request for the original handler of a key comes to.
#[derive(Clone, Copy, Debug, PartialEq, Eq)]
pub enum OriginalCall {
    /// The original was captured at this address: call it and return its result.
    Captured(u64),
    /// The entry exists but the host has not installed its original yet: the
    /// stub answers, with a diagnostic and the sentinel.
    Stub,
    /// The owner has no entry at all: a diagnostic and the sentinel.
    OriginalNotSet,
    /// The owner has entries, none under the key: the sentinel, silently.
    HandlerMiss,
}

impl OriginalCall {
    /// What [`OriginalCall::sentinel`] gives.
    pub open spec fn spec_sentinel(self) -> Option<u64> {
        if self is Captured {
            None
        } else {
            Some(SENTINEL)
        }
    }

    /// The value to return without calling anything: the sentinel for every
    /// outcome but a captured original.
    #[verifier::when_used_as_spec(spec_sentinel)]
    pub fn sentinel(self) -> (value: Option<u64>)
        ensures
            value == self.spec_sentinel(),
    {
        match self {
            OriginalCall::Captured(_) => None,
            _ => Some(SENTINEL),
        }
    }

    /// What [`OriginalCall::emits_diagnostic`] gives.
    pub open spec fn spec_emits_diagnostic(self) -> bool {
        self is Stub || self is OriginalNotSet
    }

    /// Whether exactly one diagnostic line goes with the outcome; none does
    /// otherwise. An owner without entries is reported, a key without an
    /// entry is not. The difference is deliberate.
    #[verifier::when_used_as_spec(spec_emits_diagnostic)]
    pub fn emits_diagnostic(self) -> (emits: bool)
        ensures
            emits == self.spec_emits_diagnostic(),
    {
        match self {
            OriginalCall::Stub | OriginalCall::OriginalNotSet => true,
            _ => false,
        }
    }

    /// The diagnostic line that goes with the outcome, if one does.
    pub fn diagnostic(self) -> (line: Option<&'static str>)
        ensures
            line is Some <==> self.emits_diagnostic(),
            self is Stub ==> line->0@ == STUB_DIAGNOSTIC@,
            self is OriginalNotSet ==> line->0@ == NOT_SET_DIAGNOSTIC@,
    {
        match self {
            OriginalCall::Stub => Some(STUB_DIAGNOSTIC),
            OriginalCall::OriginalNotSet => Some(NOT_SET_DIAGNOSTIC),
            _ => None,
        }
    }
}

/// What asking for the original of `(status_kind, sub_script)` of `owner`
/// comes to in the registry `m`.
pub open spec fn resolved(
    m: Map<Seq<char>, Seq<HandlerEntry>>,
    owner: Seq<char>,
    status_kind: i32,
    sub_script: i32,
) -> OriginalCall {
    if !m.contains_key(owner) {
        OriginalCall::OriginalNotSet
    } else {
        match first_match(m[owner], status_kind, sub_script) {
            None => OriginalCall::HandlerMiss,
            Some(i) => match m[owner][i].original_fn {
                Some(addr) => OriginalCall::Captured(addr),
                None => OriginalCall::Stub,
            },
        }
    }
}

/// The registry of overrides: for each owner that registered any, its
/// overrides in registration order. Dispatch and capture act on the first
/// entry under a key; an entry registered later under the same key is kept
/// but never reached.
pub struct HandlerRegistry {
    owners: Vec<OwnerHandlers>,
}

impl View for HandlerRegistry {
    type V = Map<Seq<char>, Seq<HandlerEntry>>;

    closed spec fn view(&self) -> Map<Seq<char>, Seq<HandlerEntry>> {
        as_map(self.owners@)
    }
}

/// Position of `owner` among `owners`.
fn find_owner(owners: &Vec<OwnerHandlers>, owner: &str) -> (found: Option<usize>)
    ensures
        match found {
            Some(i) => owner_at(owners@, owner@, i as int),
            None => forall|i: int| 0 <= i < owners@.len() ==> (#[trigger] owners@[i]).owner@ != owner@,
        },
{
    let mut i: usize = 0;
    while i < owners.len()
        invariant
            i <= owners.len(),
            forall|j: int| 0 <= j < i ==> (#[trigger] owners@[j]).owner@ != owner@,
        decreases owners.len() - i,
    {
        if same_name(owners[i].owner.as_str(), owner) {
            return Some(i);
        }
        i += 1;
    }
    None
}

/// Position of the first of `entries` under the key.
fn find_entry(entries: &Vec<HandlerEntry>, status_kind: i32, sub_script: i32) -> (found: Option<
    usize,
>)
    ensures
        first_match(entries@, status_kind, sub_script) == match found {
            Some(j) => Some(j as int),
            None => None,
        },
        found matches Some(j) ==> j < entries@.len(),
{
    let mut i: usize = 0;
    while i < entries.len()
        invariant
            i <= entries.len(),
            forall|j: int| 0 <= j < i ==> !(#[trigger] entries@[j]).has_key(status_kind, sub_script),
        decreases entries.len() - i,
    {
        if entries[i].status_kind == status_kind && entries[i].sub_script == sub_script {
            proof {
                lemma_first_match_found(entries@, status_kind, sub_script, i as int);
            }
            return Some(i);
        }
        i += 1;
    }
    proof {
        lemma_first_match_absent(entries@, status_kind, sub_script);
    }
    None
}

impl HandlerRegistry {
    #[verifier::type_invariant]
    spec fn inv(self) -> bool {
        owners_distinct(self.owners@)
    }

    /// A registry without overrides.
    pub fn new() -> (registry: Self)
        ensures
            registry@ == Map::<Seq<char>, Seq<HandlerEntry>>::empty(),
    {
        let registry = HandlerRegistry { owners: Vec::new() };
        assert(registry@ =~= Map::<Seq<char>, Seq<HandlerEntry>>::empty());
        registry
    }

    /// The overrides registered for `owner`, in registration order, if the
    /// owner has any.
    pub fn entries(&self, owner: &str) -> (list: Option<&Vec<HandlerEntry>>)
        ensures
            match list {
                Some(entries) => self@.contains_key(owner@) && entries@ == self@[owner@],
                None => !self@.contains_key(owner@),
            },
    {
        proof {
            use_type_invariant(self);
        }
        match find_owner(&self.owners, owner) {
            Some(i) => {
                proof {
                    lemma_as_map_at(self.owners@, i as int);
                }
                Some(&self.owners[i].entries)
            },
            None => {
                proof {
                    lemma_as_map_absent(self.owners@, owner@);
                }
                None
            },
        }
    }

    /// Notes that the host is installing the handler at `new_fn_ptr` for the
    /// key on behalf of `owner`. Where an override is registered for the key,
    /// its entry keeps `new_fn_ptr` as the original and the override's address
    /// is returned, to be installed instead.
    pub fn capture(
        &mut self,
        owner: &str,
        status_kind: i32,
        sub_script: i32,
        new_fn_ptr: u64,
    ) -> (replacement: Option<u64>)
        ensures
            replacement == substitute(old(self)@, owner@, status_kind, sub_script),
            final(self)@ == captured(old(self)@, owner@, status_kind, sub_script, new_fn_ptr),
    {
        proof {
            use_type_invariant(&*self);
        }
        let mut owners: Vec<OwnerHandlers> = Vec::new();
        std::mem::swap(&mut owners, &mut self.owners);
        let ghost before = owners@;
        let mut replacement: Option<u64> = None;
        match find_owner(&owners, owner) {
            Some(i) => {
                proof {
                    lemma_as_map_at(before, i as int);
                }
                match find_entry(&owners[i].entries, status_kind, sub_script) {
                    Some(j) => {
                        replacement = Some(owners[i].entries[j].override_fn);
                        owners[i].entries[j].original_fn = Some(new_fn_ptr);
                        proof {
                            lemma_as_map_replace(before, owners@, i as int);
                            assert(owners@[i as int].entries@ =~= before[i as int].entries@.update(
                                j as int,
                                before[i as int].entries@[j as int].with_original(new_fn_ptr),
                            ));
                        }
                    },
                    None => {},
                }
            },
            None => {
                proof {
                    lemma_as_map_absent(before, owner@);
                    lemma_first_match_absent(Seq::<HandlerEntry>::empty(), status_kind, sub_script);
                }
            },
        }
        self.owners = owners;
        replacement
    }
}

/// Registers `func` as the override of `(status_kind, lua_script)` for the
/// module `fighter_str`. Nothing is merged or refused: a second registration
/// under a key that is taken is stored behind the first.
pub fn replace_status_func(
    registry: &mut HandlerRegistry,
    fighter_str: &str,
    status_kind: i32,
    lua_script: i32,
    func: u64,
)
    ensures
        final(registry)@ == registered(
            old(registry)@,
            fighter_str@,
            HandlerEntry { status_kind, sub_script: lua_script, override_fn: func, original_fn: None },
        ),
{
    proof {
        use_type_invariant(&*registry);
    }
    let entry = HandlerEntry {
        status_kind,
        sub_script: lua_script,
        override_fn: func,
        original_fn: None,
    };
    let mut owners: Vec<OwnerHandlers> = Vec::new();
    std::mem::swap(&mut owners, &mut registry.owners);
    let ghost before = owners@;
    match find_owner(&owners, fighter_str) {
        Some(i) => {
            owners[i].entries.push(entry);
            proof {
                lemma_as_map_at(before, i as int);
                lemma_as_map_replace(before, owners@, i as int);
            }
        },
        None => {
            let mut entries: Vec<HandlerEntry> = Vec::new();
            entries.push(entry);
            let group = OwnerHandlers { owner: fighter_str.to_owned(), entries };
            proof {
                lemma_as_map_absent(before, fighter_str@);
                lemma_as_map_push(before, group);
                assert(group.entries@ =~= Seq::<HandlerEntry>::empty().push(entry));
            }
            owners.push(group);
        },
    }
    registry.owners = owners;
}

/// Finds what a call of the original handler of `(status_kind, lua_script)`
/// of the module `fighter_str` comes to. The caller makes the call, or
/// returns the sentinel, as the outcome says.
pub fn call_original(
    registry: &HandlerRegistry,
    fighter_str: &str,
    status_kind: i32,
    lua_script: i32,
) -> (call: OriginalCall)
    ensures
        call == resolved(registry@, fighter_str@, status_kind, lua_script),
{
    proof {
        use_type_invariant(registry);
    }
    match find_owner(&registry.owners, fighter_str) {
        Some(i) => {
            proof {
                lemma_as_map_at(registry.owners@, i as int);
            }
            let entries = &registry.owners[i].entries;
            match find_entry(entries, status_kind, lua_script) {
                Some(j) => match entries[j].original_fn {
                    Some(addr) => OriginalCall::Captured(addr),
                    None => OriginalCall::Stub,
                },
                None => OriginalCall::HandlerMiss,
            }
        },
        None => {
            proof {
                lemma_as_map_absent(registry.owners@, fighter_str@);
            }
            OriginalCall::OriginalNotSet
        },
    }
}

} // verus!
