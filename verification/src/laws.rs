//! What holds of the registries across several operations.

use vstd::prelude::*;
use crate::handlers::{
    captured, entries_of, first_match, is_first_match, lemma_first_match_absent,
    lemma_first_match_found, registered, resolved, substitute, HandlerEntry, OriginalCall,
};
use crate::loader::{action_for, installed_after};
use crate::ranges::{
    first_owner, index_of, is_first_owner, is_index_of, lemma_first_owner_found,
    lemma_index_of_absent, lemma_index_of_found, recorded, well_formed, RangeSpec, SHIM_TRIGGER,
};
use crate::shim::{after_interception, interception};

verus! {

/// A name that occurs at `j` has a first position.
proof fn lemma_some_index(s: Seq<RangeSpec>, name: Seq<char>, j: int)
    requires
        0 <= j < s.len(),
        s[j].name == name,
    ensures
        index_of(s, name) is Some,
    decreases j,
{
    if exists|k: int| 0 <= k < j && s[k].name == name {
        let k = choose|k: int| 0 <= k < j && s[k].name == name;
        lemma_some_index(s, name, k);
    } else {
        assert(is_index_of(s, name, j));
    }
}

/// A key that some entry at `j` carries has a first match.
proof fn lemma_some_match(entries: Seq<HandlerEntry>, status_kind: i32, sub_script: i32, j: int)
    requires
        0 <= j < entries.len(),
        entries[j].has_key(status_kind, sub_script),
    ensures
        first_match(entries, status_kind, sub_script) is Some,
    decreases j,
{
    if exists|k: int| 0 <= k < j && entries[k].has_key(status_kind, sub_script) {
        let k = choose|k: int| 0 <= k < j && entries[k].has_key(status_kind, sub_script);
        lemma_some_match(entries, status_kind, sub_script, k);
    } else {
        assert(is_first_match(entries, status_kind, sub_script, j));
    }
}

/// Noting a load keeps the registry well formed. For any module but the
/// trigger it leaves the module on record with the bounds of this load, and
/// adds a range only if the name was not on record.
pub proof fn law_record_keeps_one_range_per_name(s: Seq<RangeSpec>, r: RangeSpec)
    requires
        well_formed(s),
    ensures
        well_formed(recorded(s, r)),
        r.name != SHIM_TRIGGER@ ==> {
            &&& recorded(s, r).len() == s.len() + (if index_of(s, r.name) is Some {
                0int
            } else {
                1int
            })
            &&& index_of(recorded(s, r), r.name) is Some
            &&& recorded(s, r)[index_of(recorded(s, r), r.name)->0] == r
        },
{
    let t = recorded(s, r);
    if r.name != SHIM_TRIGGER@ {
        match index_of(s, r.name) {
            Some(i) => {
                assert(is_index_of(s, r.name, i));
                assert(t == s.update(i, r));
                assert forall|a: int, b: int| 0 <= a < b < t.len() implies (#[trigger] t[a]).name
                    != (#[trigger] t[b]).name by {
                    assert(t[a].name == s[a].name);
                    assert(t[b].name == s[b].name);
                }
                assert forall|j: int| 0 <= j < t.len() implies (#[trigger] t[j]).name
                    != SHIM_TRIGGER@ by {
                    assert(t[j].name == s[j].name);
                }
                assert(is_index_of(t, r.name, i)) by {
                    assert forall|j: int| 0 <= j < i implies (#[trigger] t[j]).name != r.name by {
                        assert(s[j].name != r.name);
                    }
                }
                lemma_index_of_found(t, r.name, i);
            },
            None => {
                assert(t == s.push(r));
                assert forall|j: int| 0 <= j < s.len() implies (#[trigger] s[j]).name != r.name by {
                    if s[j].name == r.name {
                        lemma_some_index(s, r.name, j);
                    }
                }
                assert forall|a: int, b: int| 0 <= a < b < t.len() implies (#[trigger] t[a]).name
                    != (#[trigger] t[b]).name by {
                    if b < s.len() {
                        assert(s[a].name != s[b].name);
                    } else {
                        assert(s[a].name != r.name);
                    }
                }
                assert forall|j: int| 0 <= j < t.len() implies (#[trigger] t[j]).name
                    != SHIM_TRIGGER@ by {
                    if j < s.len() {
                        assert(s[j].name != SHIM_TRIGGER@);
                    }
                }
                assert(is_index_of(t, r.name, s.len() as int)) by {
                    assert forall|j: int| 0 <= j < s.len() implies (#[trigger] t[j]).name
                        != r.name by {
                        assert(s[j].name != r.name);
                    }
                }
                lemma_index_of_found(t, r.name, s.len() as int);
            },
        }
    }
}

/// Whatever loads are noted, the trigger module is not on record.
pub proof fn law_trigger_is_never_stored(s: Seq<RangeSpec>, r: RangeSpec)
    requires
        well_formed(s),
    ensures
        index_of(recorded(s, r), SHIM_TRIGGER@) is None,
        r.name == SHIM_TRIGGER@ ==> recorded(s, r) == s,
{
    law_record_keeps_one_range_per_name(s, r);
    lemma_index_of_absent(recorded(s, r), SHIM_TRIGGER@);
}

/// A module that is loaded again keeps its one place in the registry, with
/// the bounds of the later load; every other range stays as it was. So two
/// loads leave what the later load alone would have left.
pub proof fn law_reload_replaces_bounds(s: Seq<RangeSpec>, first: RangeSpec, second: RangeSpec)
    requires
        well_formed(s),
        first.name == second.name,
    ensures
        recorded(recorded(s, first), second).len() == recorded(s, first).len(),
        well_formed(recorded(recorded(s, first), second)),
        index_of(recorded(recorded(s, first), second), second.name) == index_of(
            recorded(s, first),
            first.name,
        ),
        recorded(recorded(s, first), second) == recorded(s, second),
{
    let t = recorded(s, first);
    let u = recorded(t, second);
    law_record_keeps_one_range_per_name(s, first);
    law_record_keeps_one_range_per_name(t, second);
    if first.name != SHIM_TRIGGER@ {
        let i = index_of(t, first.name)->0;
        assert(is_index_of(t, first.name, i));
        assert(u == t.update(i, second));
        assert(is_index_of(u, second.name, i)) by {
            assert forall|j: int| 0 <= j < i implies (#[trigger] u[j]).name != second.name by {
                assert(t[j].name != first.name);
            }
        }
        lemma_index_of_found(u, second.name, i);
        match index_of(s, first.name) {
            Some(k) => {
                assert(is_index_of(s, first.name, k));
                assert(is_index_of(t, first.name, k)) by {
                    assert forall|j: int| 0 <= j < k implies (#[trigger] t[j]).name
                        != first.name by {
                        assert(s[j].name != first.name);
                    }
                }
                lemma_index_of_found(t, first.name, k);
                assert(u =~= s.update(k, second));
            },
            None => {
                assert forall|j: int| 0 <= j < s.len() implies (#[trigger] t[j]).name
                    != first.name by {
                    if s[j].name == first.name {
                        lemma_some_index(s, first.name, j);
                    }
                }
                lemma_index_of_found(t, first.name, s.len() as int);
                assert(u =~= s.push(second));
            },
        }
    }
}

/// No address is owned by two ranges of `s`.
pub open spec fn ranges_disjoint(s: Seq<RangeSpec>) -> bool {
    forall|i: int, j: int, addr: u64|
        0 <= i < j < s.len() ==> !((#[trigger] s[i].owns(addr)) && (#[trigger] s[j].owns(addr)))
}

/// Where the ranges do not overlap, as they are meant to, the order in which
/// modules were seen does not matter: an address is classified to the one
/// range that owns it.
pub proof fn law_disjoint_ranges_have_one_owner(s: Seq<RangeSpec>, addr: u64, i: int)
    requires
        ranges_disjoint(s),
        0 <= i < s.len(),
        s[i].owns(addr),
    ensures
        first_owner(s, addr) == Some(i),
{
    assert(is_first_owner(s, addr, i)) by {
        assert forall|j: int| 0 <= j < i implies !(#[trigger] s[j]).owns(addr) by {
            assert(!(s[j].owns(addr) && s[i].owns(addr)));
        }
    }
    lemma_first_owner_found(s, addr, i);
}

/// Neither bound of a range belongs to it.
pub proof fn law_bounds_are_exclusive(r: RangeSpec)
    ensures
        !r.owns(r.start),
        !r.owns(r.end),
{
}

/// One load notification of the host.
pub struct Load {
    pub name: Seq<char>,
    pub base: u64,
    pub size_hint: Option<u64>,
}

/// How often the caller is asked to install the shim while the
/// notifications `loads` come in one after the other.
pub open spec fn installs(installed: bool, loads: Seq<Load>) -> nat
    decreases loads.len(),
{
    if loads.len() == 0 {
        0
    } else {
        let first = loads[0];
        let now: nat = if action_for(installed, first.name, first.base, first.size_hint)
            is InstallShim {
            1
        } else {
            0
        };
        now + installs(installed_after(installed, first.name), loads.drop_first())
    }
}

/// Whether one of `loads` is for the trigger module.
pub open spec fn trigger_among(loads: Seq<Load>) -> bool {
    exists|i: int| 0 <= i < loads.len() && (#[trigger] loads[i]).name == SHIM_TRIGGER@
}

/// Whatever modules are loaded, and however often the trigger module comes,
/// the shim is installed at most once: once if the trigger module is among
/// them and the shim was not installed before, and not at all otherwise.
pub proof fn law_shim_is_installed_once(installed: bool, loads: Seq<Load>)
    ensures
        installs(installed, loads) == if !installed && trigger_among(loads) {
            1nat
        } else {
            0nat
        },
    decreases loads.len(),
{
    if loads.len() > 0 {
        let rest = loads.drop_first();
        law_shim_is_installed_once(installed_after(installed, loads[0].name), rest);
        if trigger_among(loads) && loads[0].name != SHIM_TRIGGER@ {
            let i = choose|i: int| 0 <= i < loads.len() && (#[trigger] loads[i]).name == SHIM_TRIGGER@;
            assert(rest[i - 1].name == SHIM_TRIGGER@);
            assert(trigger_among(rest));
        }
        if trigger_among(rest) {
            let i = choose|i: int| 0 <= i < rest.len() && (#[trigger] rest[i]).name == SHIM_TRIGGER@;
            assert(loads[i + 1].name == SHIM_TRIGGER@);
            assert(trigger_among(loads));
        }
    }
}

/// An installation for which no override is found passes through: the
/// incoming pointer is forwarded as it came and no entry changes.
pub proof fn law_miss_is_transparent(
    ranges: Seq<RangeSpec>,
    m: Map<Seq<char>, Seq<HandlerEntry>>,
    status_kind: i32,
    sub_script: i32,
    new_fn_ptr: u64,
)
    requires
        !(interception(ranges, m, status_kind, sub_script, new_fn_ptr) is Substituted),
    ensures
        interception(ranges, m, status_kind, sub_script, new_fn_ptr).forwarded(new_fn_ptr)
            == new_fn_ptr,
        after_interception(ranges, m, status_kind, sub_script, new_fn_ptr) == m,
{
}

/// Once the shim has put an override in the place of the handler at `addr`,
/// asking for the original of that key leads to `addr`.
pub proof fn law_original_is_the_captured_handler(
    m: Map<Seq<char>, Seq<HandlerEntry>>,
    owner: Seq<char>,
    status_kind: i32,
    sub_script: i32,
    addr: u64,
)
    requires
        substitute(m, owner, status_kind, sub_script) is Some,
    ensures
        resolved(captured(m, owner, status_kind, sub_script, addr), owner, status_kind, sub_script)
            == OriginalCall::Captured(addr),
{
    let entries = entries_of(m, owner);
    let i = first_match(entries, status_kind, sub_script)->0;
    assert(is_first_match(entries, status_kind, sub_script, i));
    let after = entries.update(i, entries[i].with_original(addr));
    assert(is_first_match(after, status_kind, sub_script, i)) by {
        assert forall|j: int| 0 <= j < i implies !(#[trigger] after[j]).has_key(
            status_kind,
            sub_script,
        ) by {
            assert(!entries[j].has_key(status_kind, sub_script));
        }
    }
    lemma_first_match_found(after, status_kind, sub_script, i);
}

/// An installation that meets an override forwards the override of the
/// first matching entry of the owning module, stores the incoming pointer as
/// that entry's original, and from then on the original of the key is the
/// incoming pointer.
pub proof fn law_substitution_captures_original(
    ranges: Seq<RangeSpec>,
    m: Map<Seq<char>, Seq<HandlerEntry>>,
    status_kind: i32,
    sub_script: i32,
    new_fn_ptr: u64,
)
    requires
        interception(ranges, m, status_kind, sub_script, new_fn_ptr) is Substituted,
    ensures
        ({
            let owner = ranges[first_owner(ranges, new_fn_ptr)->0].name;
            let i = first_match(entries_of(m, owner), status_kind, sub_script)->0;
            let after = after_interception(ranges, m, status_kind, sub_script, new_fn_ptr);
            &&& interception(ranges, m, status_kind, sub_script, new_fn_ptr).forwarded(new_fn_ptr)
                == entries_of(m, owner)[i].override_fn
            &&& entries_of(after, owner)[i] == entries_of(m, owner)[i].with_original(new_fn_ptr)
            &&& resolved(after, owner, status_kind, sub_script) == OriginalCall::Captured(
                new_fn_ptr,
            )
        }),
{
    let owner = ranges[first_owner(ranges, new_fn_ptr)->0].name;
    let i = first_match(entries_of(m, owner), status_kind, sub_script)->0;
    assert(is_first_match(entries_of(m, owner), status_kind, sub_script, i));
    law_original_is_the_captured_handler(m, owner, status_kind, sub_script, new_fn_ptr);
}

/// For an owner that never registered anything, the request for an original
/// ends in the zero sentinel and one diagnostic.
pub proof fn law_unknown_owner_is_reported(
    m: Map<Seq<char>, Seq<HandlerEntry>>,
    owner: Seq<char>,
    status_kind: i32,
    sub_script: i32,
)
    requires
        !m.contains_key(owner),
    ensures
        resolved(m, owner, status_kind, sub_script) == OriginalCall::OriginalNotSet,
        resolved(m, owner, status_kind, sub_script).sentinel() == Some(0u64),
        resolved(m, owner, status_kind, sub_script).emits_diagnostic(),
{
}

/// For a known owner without an entry under the key, the request for an
/// original ends in the zero sentinel and no diagnostic.
pub proof fn law_unmatched_key_is_silent(
    m: Map<Seq<char>, Seq<HandlerEntry>>,
    owner: Seq<char>,
    status_kind: i32,
    sub_script: i32,
)
    requires
        m.contains_key(owner),
        forall|j: int|
            0 <= j < m[owner].len() ==> !(#[trigger] m[owner][j]).has_key(status_kind, sub_script),
    ensures
        resolved(m, owner, status_kind, sub_script) == OriginalCall::HandlerMiss,
        resolved(m, owner, status_kind, sub_script).sentinel() == Some(0u64),
        !resolved(m, owner, status_kind, sub_script).emits_diagnostic(),
{
    lemma_first_match_absent(m[owner], status_kind, sub_script);
}

/// A registration puts its entry at the end of its owner's list and leaves
/// every other owner as it was.
pub proof fn law_registration_appends(
    m: Map<Seq<char>, Seq<HandlerEntry>>,
    owner: Seq<char>,
    entry: HandlerEntry,
    other: Seq<char>,
)
    ensures
        entries_of(registered(m, owner, entry), owner) == entries_of(m, owner).push(entry),
        other != owner ==> entries_of(registered(m, owner, entry), other) == entries_of(m, other),
        other != owner ==> registered(m, owner, entry).contains_key(other) == m.contains_key(other),
{
}

/// A key that has an entry keeps that entry as its first match when more
/// entries are registered behind it.
pub proof fn law_first_match_survives_registration(
    entries: Seq<HandlerEntry>,
    entry: HandlerEntry,
    status_kind: i32,
    sub_script: i32,
)
    requires
        first_match(entries, status_kind, sub_script) is Some,
    ensures
        first_match(entries.push(entry), status_kind, sub_script) == first_match(
            entries,
            status_kind,
            sub_script,
        ),
{
    let i = first_match(entries, status_kind, sub_script)->0;
    assert(is_first_match(entries, status_kind, sub_script, i));
    let longer = entries.push(entry);
    assert(is_first_match(longer, status_kind, sub_script, i)) by {
        assert(longer[i] == entries[i]);
        assert forall|j: int| 0 <= j < i implies !(#[trigger] longer[j]).has_key(
            status_kind,
            sub_script,
        ) by {
            assert(!entries[j].has_key(status_kind, sub_script));
        }
    }
    lemma_first_match_found(longer, status_kind, sub_script, i);
}

/// Capturing an original changes one field of one entry: the list keeps its
/// length, every key keeps its first match, and every entry but the first
/// match of the captured key is untouched. Other owners are not touched.
pub proof fn law_capture_changes_first_match_only(
    m: Map<Seq<char>, Seq<HandlerEntry>>,
    owner: Seq<char>,
    status_kind: i32,
    sub_script: i32,
    addr: u64,
    other_kind: i32,
    other_sub: i32,
)
    ensures
        captured(m, owner, status_kind, sub_script, addr).dom() == m.dom(),
        entries_of(captured(m, owner, status_kind, sub_script, addr), owner).len() == entries_of(
            m,
            owner,
        ).len(),
        forall|j: int|
            0 <= j < entries_of(m, owner).len() && Some(j) != first_match(
                entries_of(m, owner),
                status_kind,
                sub_script,
            ) ==> #[trigger] entries_of(captured(m, owner, status_kind, sub_script, addr), owner)[j]
                == entries_of(m, owner)[j],
        forall|other: Seq<char>|
            other != owner ==> #[trigger] entries_of(
                captured(m, owner, status_kind, sub_script, addr),
                other,
            ) == entries_of(m, other),
        first_match(
            entries_of(captured(m, owner, status_kind, sub_script, addr), owner),
            other_kind,
            other_sub,
        ) == first_match(entries_of(m, owner), other_kind, other_sub),
        substitute(captured(m, owner, status_kind, sub_script, addr), owner, other_kind, other_sub)
            == substitute(m, owner, other_kind, other_sub),
{
    let before = entries_of(m, owner);
    let after = entries_of(captured(m, owner, status_kind, sub_script, addr), owner);
    if first_match(before, status_kind, sub_script) is Some {
        let i = first_match(before, status_kind, sub_script)->0;
        assert(is_first_match(before, status_kind, sub_script, i));
        assert(captured(m, owner, status_kind, sub_script, addr).dom() =~= m.dom());
        assert(after == before.update(i, before[i].with_original(addr)));
        assert forall|j: int| 0 <= j < before.len() implies (#[trigger] after[j]).has_key(
            other_kind,
            other_sub,
        ) == before[j].has_key(other_kind, other_sub) by {}
        match first_match(before, other_kind, other_sub) {
            Some(k) => {
                assert(is_first_match(before, other_kind, other_sub, k));
                assert(is_first_match(after, other_kind, other_sub, k)) by {
                    assert(after[k].has_key(other_kind, other_sub));
                    assert forall|j: int| 0 <= j < k implies !(#[trigger] after[j]).has_key(
                        other_kind,
                        other_sub,
                    ) by {
                        assert(!before[j].has_key(other_kind, other_sub));
                    }
                }
                lemma_first_match_found(after, other_kind, other_sub, k);
            },
            None => {
                assert forall|j: int| 0 <= j < after.len() implies !(#[trigger] after[j]).has_key(
                    other_kind,
                    other_sub,
                ) by {
                    if before[j].has_key(other_kind, other_sub) {
                        lemma_some_match(before, other_kind, other_sub, j);
                    }
                }
                lemma_first_match_absent(after, other_kind, other_sub);
            },
        }
    }
}

/// Where the host installs a handler for one key several times, the original
/// of the key is the one that was seen last.
pub proof fn law_last_capture_wins(
    m: Map<Seq<char>, Seq<HandlerEntry>>,
    owner: Seq<char>,
    status_kind: i32,
    sub_script: i32,
    earlier: u64,
    later: u64,
)
    requires
        substitute(m, owner, status_kind, sub_script) is Some,
    ensures
        resolved(
            captured(
                captured(m, owner, status_kind, sub_script, earlier),
                owner,
                status_kind,
                sub_script,
                later,
            ),
            owner,
            status_kind,
            sub_script,
        ) == OriginalCall::Captured(later),
{
    law_capture_changes_first_match_only(
        m,
        owner,
        status_kind,
        sub_script,
        earlier,
        status_kind,
        sub_script,
    );
    law_original_is_the_captured_handler(
        captured(m, owner, status_kind, sub_script, earlier),
        owner,
        status_kind,
        sub_script,
        later,
    );
}

/// Two registrations under one key give two stored entries, of which only
/// the earlier is ever acted on: the shim substitutes its handler, and a
/// capture leaves the later entry without an original.
pub proof fn law_duplicate_registration_is_shadowed(
    m: Map<Seq<char>, Seq<HandlerEntry>>,
    owner: Seq<char>,
    status_kind: i32,
    sub_script: i32,
    first_fn: u64,
    second_fn: u64,
    addr: u64,
)
    ensures
        ({
            let first = HandlerEntry { status_kind, sub_script, override_fn: first_fn, original_fn: None };
            let second = HandlerEntry {
                status_kind,
                sub_script,
                override_fn: second_fn,
                original_fn: None,
            };
            let once = registered(m, owner, first);
            let twice = registered(once, owner, second);
            &&& entries_of(twice, owner) == entries_of(m, owner).push(first).push(second)
            &&& first_match(entries_of(twice, owner), status_kind, sub_script) == first_match(
                entries_of(once, owner),
                status_kind,
                sub_script,
            )
            &&& first_match(entries_of(twice, owner), status_kind, sub_script) != Some(
                entries_of(twice, owner).len() - 1,
            )
            &&& substitute(twice, owner, status_kind, sub_script) == substitute(
                once,
                owner,
                status_kind,
                sub_script,
            )
            &&& substitute(m, owner, status_kind, sub_script) is None ==> substitute(
                twice,
                owner,
                status_kind,
                sub_script,
            ) == Some(first_fn)
            &&& entries_of(captured(twice, owner, status_kind, sub_script, addr), owner).last()
                == second
        }),
{
    let first = HandlerEntry { status_kind, sub_script, override_fn: first_fn, original_fn: None };
    let second = HandlerEntry { status_kind, sub_script, override_fn: second_fn, original_fn: None };
    let once = registered(m, owner, first);
    let twice = registered(once, owner, second);
    let e0 = entries_of(m, owner);
    let e1 = entries_of(once, owner);
    let e2 = entries_of(twice, owner);
    assert(e1 == e0.push(first));
    assert(e2 == e1.push(second));
    lemma_some_match(e1, status_kind, sub_script, e0.len() as int);
    law_first_match_survives_registration(e1, second, status_kind, sub_script);
    let i = first_match(e1, status_kind, sub_script)->0;
    assert(is_first_match(e1, status_kind, sub_script, i));
    assert(e2[i] == e1[i]);
    if substitute(m, owner, status_kind, sub_script) is None {
        assert(is_first_match(e1, status_kind, sub_script, e0.len() as int)) by {
            assert forall|j: int| 0 <= j < e0.len() implies !(#[trigger] e1[j]).has_key(
                status_kind,
                sub_script,
            ) by {
                if e0[j].has_key(status_kind, sub_script) {
                    lemma_some_match(e0, status_kind, sub_script, j);
                }
            }
        }
        lemma_first_match_found(e1, status_kind, sub_script, e0.len() as int);
    }
    law_capture_changes_first_match_only(
        twice,
        owner,
        status_kind,
        sub_script,
        addr,
        status_kind,
        sub_script,
    );
}

/// One change of the handler registry: a registration by a consumer, or a
/// capture by the shim.
pub enum Operation {
    Register { owner: Seq<char>, entry: HandlerEntry },
    Capture { owner: Seq<char>, status_kind: i32, sub_script: i32, addr: u64 },
}

/// The registry after one operation.
pub open spec fn step(
    m: Map<Seq<char>, Seq<HandlerEntry>>,
    op: Operation,
) -> Map<Seq<char>, Seq<HandlerEntry>> {
    match op {
        Operation::Register { owner, entry } => registered(m, owner, entry),
        Operation::Capture { owner, status_kind, sub_script, addr } => captured(
            m,
            owner,
            status_kind,
            sub_script,
            addr,
        ),
    }
}

/// The registry after the operations `ops`, one after the other.
pub open spec fn applied(
    m: Map<Seq<char>, Seq<HandlerEntry>>,
    ops: Seq<Operation>,
) -> Map<Seq<char>, Seq<HandlerEntry>>
    decreases ops.len(),
{
    if ops.len() == 0 {
        m
    } else {
        step(applied(m, ops.drop_last()), ops.last())
    }
}

/// An entry that stands behind another entry of its key stays out of reach
/// for good. Whatever is registered or captured afterwards, the key's first
/// match stays where it was and keeps its override, which is therefore the
/// one that is substituted; and the later entry is never changed, so it
/// never gets an original.
pub proof fn law_shadowed_entry_is_never_reached(
    m: Map<Seq<char>, Seq<HandlerEntry>>,
    owner: Seq<char>,
    status_kind: i32,
    sub_script: i32,
    i: int,
    j: int,
    ops: Seq<Operation>,
)
    requires
        first_match(entries_of(m, owner), status_kind, sub_script) == Some(i),
        i < j < entries_of(m, owner).len(),
        entries_of(m, owner)[j].has_key(status_kind, sub_script),
    ensures
        entries_of(applied(m, ops), owner).len() >= entries_of(m, owner).len(),
        first_match(entries_of(applied(m, ops), owner), status_kind, sub_script) == Some(i),
        substitute(applied(m, ops), owner, status_kind, sub_script) == Some(
            entries_of(m, owner)[i].override_fn,
        ),
        entries_of(applied(m, ops), owner)[j] == entries_of(m, owner)[j],
    decreases ops.len(),
{
    assert(is_first_match(entries_of(m, owner), status_kind, sub_script, i));
    if ops.len() > 0 {
        law_shadowed_entry_is_never_reached(
            m,
            owner,
            status_kind,
            sub_script,
            i,
            j,
            ops.drop_last(),
        );
        let mid = applied(m, ops.drop_last());
        let before = entries_of(mid, owner);
        assert(is_first_match(before, status_kind, sub_script, i));
        match ops.last() {
            Operation::Register { owner: by, entry } => {
                law_registration_appends(mid, by, entry, owner);
                if by == owner {
                    law_first_match_survives_registration(before, entry, status_kind, sub_script);
                    assert(before.push(entry)[i] == before[i]);
                    assert(before.push(entry)[j] == before[j]);
                }
            },
            Operation::Capture { owner: by, status_kind: kind, sub_script: sub, addr } => {
                law_capture_changes_first_match_only(
                    mid,
                    by,
                    kind,
                    sub,
                    addr,
                    status_kind,
                    sub_script,
                );
                if by == owner {
                    let after = entries_of(captured(mid, by, kind, sub, addr), owner);
                    match first_match(before, kind, sub) {
                        Some(x) => {
                            assert(is_first_match(before, kind, sub, x));
                            assert(x != j);
                            assert(after[j] == before[j]);
                            assert(after[i].override_fn == before[i].override_fn);
                        },
                        None => {},
                    }
                }
            },
        }
    }
}

/// A request to register `entry` for `owner`.
pub struct Registration {
    pub owner: Seq<char>,
    pub entry: HandlerEntry,
}

/// The registry after the requests `reqs` were served one after the other.
pub open spec fn registered_all(
    m: Map<Seq<char>, Seq<HandlerEntry>>,
    reqs: Seq<Registration>,
) -> Map<Seq<char>, Seq<HandlerEntry>>
    decreases reqs.len(),
{
    if reqs.len() == 0 {
        m
    } else {
        registered(registered_all(m, reqs.drop_last()), reqs.last().owner, reqs.last().entry)
    }
}

/// The entries that `reqs` ask to register for `owner`, in the order of the requests.
pub open spec fn requested_for(reqs: Seq<Registration>, owner: Seq<char>) -> Seq<HandlerEntry>
    decreases reqs.len(),
{
    if reqs.len() == 0 {
        Seq::empty()
    } else if reqs.last().owner == owner {
        requested_for(reqs.drop_last(), owner).push(reqs.last().entry)
    } else {
        requested_for(reqs.drop_last(), owner)
    }
}

/// The registry changes through `&mut` only, so the registrations of
/// several callers are served one at a time, in some order. Whatever that
/// order is, none is lost: each owner ends with what it had, followed by the
/// entries that were requested for it, in the order of the requests. Its
/// count has grown by the number of those requests.
pub proof fn law_no_registration_is_lost(
    m: Map<Seq<char>, Seq<HandlerEntry>>,
    reqs: Seq<Registration>,
    owner: Seq<char>,
)
    ensures
        entries_of(registered_all(m, reqs), owner) == entries_of(m, owner) + requested_for(
            reqs,
            owner,
        ),
        entries_of(registered_all(m, reqs), owner).len() == entries_of(m, owner).len()
            + requested_for(reqs, owner).len(),
    decreases reqs.len(),
{
    let had = entries_of(m, owner);
    if reqs.len() == 0 {
        assert(had + Seq::<HandlerEntry>::empty() =~= had);
    } else {
        let earlier = reqs.drop_last();
        let last = reqs.last();
        law_no_registration_is_lost(m, earlier, owner);
        law_registration_appends(registered_all(m, earlier), last.owner, last.entry, owner);
        if last.owner == owner {
            assert((had + requested_for(earlier, owner)).push(last.entry) =~= had + requested_for(
                earlier,
                owner,
            ).push(last.entry));
        }
    }
}

} // verus!
