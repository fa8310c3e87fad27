//! The registry of the address ranges that loaded modules occupy.

use vstd::prelude::*;
use crate::text::same_name;

verus! {

/// Width given to a module whose size the host does not report. It is a
/// deliberate over-estimate: the range of such a module may reach into the
/// addresses of a module that was loaded right behind it.
pub const DEFAULT_SPAN: u64 = 0xfff_ffff;

/// Name of the module whose load is the signal to install the shim. The
/// registry never keeps a range under this name.
pub const SHIM_TRIGGER: &'static str = "common";

/// What a [`ModuleRange`] stands for in contracts.
pub struct RangeSpec {
    pub name: Seq<char>,
    pub start: u64,
    pub end: u64,
}

/// The stretch of addresses that the module called `name` was loaded at. The
/// module owns what lies strictly between `start` and `end`. Where the host
/// gave no size, `end` is an estimate (see [`DEFAULT_SPAN`]).
pub struct ModuleRange {
    pub name: String,
    pub start: u64,
    pub end: u64,
}

impl View for ModuleRange {
    type V = RangeSpec;

    open spec fn view(&self) -> RangeSpec {
        RangeSpec { name: self.name@, start: self.start, end: self.end }
    }
}

impl ModuleRange {
    /// Whether `addr` lies strictly between the bounds.
    pub fn owns(&self, addr: u64) -> (owned: bool)
        ensures
            owned == self@.owns(addr),
    {
        self.start < addr && addr < self.end
    }
}

impl RangeSpec {
    /// An address belongs to a range when it lies strictly between its bounds:
    /// neither `start` nor `end` itself is owned.
    pub open spec fn owns(self, addr: u64) -> bool {
        self.start < addr < self.end
    }
}

/// Where a module of `size` bytes (or of unknown size) loaded at `base` ends.
/// The sum stops at the top of the address space.
pub open spec fn range_end(base: u64, size_hint: Option<u64>) -> u64 {
    let span = match size_hint {
        Some(size) => size,
        None => DEFAULT_SPAN,
    };
    if base + span > u64::MAX {
        u64::MAX
    } else {
        (base + span) as u64
    }
}

/// No two ranges of `s` carry the same name.
pub open spec fn names_distinct(s: Seq<RangeSpec>) -> bool {
    forall|i: int, j: int| 0 <= i < j < s.len() ==> (#[trigger] s[i]).name != (#[trigger] s[j]).name
}

/// No range of `s` carries the name of the trigger module.
pub open spec fn trigger_absent(s: Seq<RangeSpec>) -> bool {
    forall|i: int| 0 <= i < s.len() ==> (#[trigger] s[i]).name != SHIM_TRIGGER@
}

/// What holds of the ranges of every registry: one range per name, and none
/// for the trigger module.
pub open spec fn well_formed(s: Seq<RangeSpec>) -> bool {
    names_distinct(s) && trigger_absent(s)
}

/// `i` is the position of the range called `name`, the first if there are several.
pub open spec fn is_index_of(s: Seq<RangeSpec>, name: Seq<char>, i: int) -> bool {
    &&& 0 <= i < s.len()
    &&& s[i].name == name
    &&& forall|j: int| 0 <= j < i ==> (#[trigger] s[j]).name != name
}

/// The position of the range called `name`, if `s` holds one.
pub open spec fn index_of(s: Seq<RangeSpec>, name: Seq<char>) -> Option<int> {
    if exists|i: int| is_index_of(s, name, i) {
        Some(choose|i: int| is_index_of(s, name, i))
    } else {
        None
    }
}

/// The ranges after a load of `r.name` at `r`'s bounds was noted: a known
/// module gets the new bounds in place, an unknown one is added at the end,
/// and the trigger module is not stored at all.
pub open spec fn recorded(s: Seq<RangeSpec>, r: RangeSpec) -> Seq<RangeSpec> {
    if r.name == SHIM_TRIGGER@ {
        s
    } else {
        match index_of(s, r.name) {
            Some(i) => s.update(i, r),
            None => s.push(r),
        }
    }
}

/// `i` is the first position, in the order in which modules were first seen,
/// of a range that owns `addr`.
pub open spec fn is_first_owner(s: Seq<RangeSpec>, addr: u64, i: int) -> bool {
    &&& 0 <= i < s.len()
    &&& s[i].owns(addr)
    &&& forall|j: int| 0 <= j < i ==> !(#[trigger] s[j]).owns(addr)
}

/// The position of the range that classification commits to for `addr`.
pub open spec fn first_owner(s: Seq<RangeSpec>, addr: u64) -> Option<int> {
    if exists|i: int| is_first_owner(s, addr, i) {
        Some(choose|i: int| is_first_owner(s, addr, i))
    } else {
        None
    }
}

/// A position that meets [`is_index_of`] is the one that [`index_of`] gives.
pub proof fn lemma_index_of_found(s: Seq<RangeSpec>, name: Seq<char>, i: int)
    requires
        is_index_of(s, name, i),
    ensures
        index_of(s, name) == Some(i),
{
    let k = choose|k: int| is_index_of(s, name, k);
    assert(k == i) by {
        if k < i {
            assert(s[k].name != name);
        } else if i < k {
            assert(s[i].name != name);
        }
    }
}

/// A name that no range carries has no position.
pub proof fn lemma_index_of_absent(s: Seq<RangeSpec>, name: Seq<char>)
    requires
        forall|j: int| 0 <= j < s.len() ==> (#[trigger] s[j]).name != name,
    ensures
        index_of(s, name) is None,
{
}

/// A position that meets [`is_first_owner`] is the one that [`first_owner`] gives.
pub proof fn lemma_first_owner_found(s: Seq<RangeSpec>, addr: u64, i: int)
    requires
        is_first_owner(s, addr, i),
    ensures
        first_owner(s, addr) == Some(i),
{
    let k = choose|k: int| is_first_owner(s, addr, k);
    assert(k == i) by {
        if k < i {
            assert(!s[k].owns(addr));
        } else if i < k {
            assert(!s[i].owns(addr));
        }
    }
}

/// An address that no range owns has no owner.
pub proof fn lemma_first_owner_absent(s: Seq<RangeSpec>, addr: u64)
    requires
        forall|j: int| 0 <= j < s.len() ==> !(#[trigger] s[j]).owns(addr),
    ensures
        first_owner(s, addr) is None,
{
}

/// The registry of module ranges: one range per module name, in the order
/// in which the names were first seen. Ranges are meant not to overlap, but
/// nothing checks that they do not.
pub struct ModuleRanges {
    ranges: Vec<ModuleRange>,
}

impl View for ModuleRanges {
    type V = Seq<RangeSpec>;

    closed spec fn view(&self) -> Seq<RangeSpec> {
        models(self.ranges@)
    }
}

/// The ranges of `v` as contracts see them.
spec fn models(v: Seq<ModuleRange>) -> Seq<RangeSpec> {
    Seq::new(v.len(), |i: int| v[i]@)
}

impl ModuleRanges {
    #[verifier::type_invariant]
    spec fn inv(self) -> bool {
        well_formed(self@)
    }

    /// A registry that knows no module.
    pub fn new() -> (registry: Self)
        ensures
            registry@ == Seq::<RangeSpec>::empty(),
    {
        let registry = ModuleRanges { ranges: Vec::new() };
        assert(registry@ =~= Seq::<RangeSpec>::empty());
        registry
    }

    /// The number of modules on record.
    pub fn len(&self) -> (n: usize)
        ensures
            n == self@.len(),
    {
        self.ranges.len()
    }

    /// Notes that the module `name` was loaded at `base`, with its size where
    /// the host reports one, and returns the end that its range was given.
    /// For the trigger module nothing is stored and `None` is returned: its
    /// load is the signal to install the shim.
    pub fn record_or_update(&mut self, name: &str, base: u64, size_hint: Option<u64>) -> (end: Option<
        u64,
    >)
        ensures
            final(self)@ == recorded(
                old(self)@,
                RangeSpec { name: name@, start: base, end: range_end(base, size_hint) },
            ),
            end == if name@ == SHIM_TRIGGER@ {
                None
            } else {
                Some(range_end(base, size_hint))
            },
            well_formed(final(self)@),
    {
        proof {
            use_type_invariant(&*self);
        }
        if same_name(name, SHIM_TRIGGER) {
            return None;
        }
        let span = match size_hint {
            Some(size) => size,
            None => DEFAULT_SPAN,
        };
        let end = base.saturating_add(span);
        let ghost r = RangeSpec { name: name@, start: base, end: end };
        let mut ranges: Vec<ModuleRange> = Vec::new();
        std::mem::swap(&mut ranges, &mut self.ranges);
        let ghost before = models(ranges@);
        let mut i: usize = 0;
        while i < ranges.len()
            invariant
                i <= ranges.len(),
                before == models(ranges@),
                before == old(self)@,
                well_formed(before),
                name@ != SHIM_TRIGGER@,
                r == (RangeSpec { name: name@, start: base, end: range_end(base, size_hint) }),
                end == r.end,
                forall|j: int| 0 <= j < i ==> (#[trigger] before[j]).name != name@,
            decreases ranges.len() - i,
        {
            if same_name(ranges[i].name.as_str(), name) {
                proof {
                    lemma_index_of_found(before, name@, i as int);
                }
                ranges[i].start = base;
                ranges[i].end = end;
                assert(models(ranges@) =~= before.update(i as int, r));
                self.ranges = ranges;
                return Some(end);
            }
            i += 1;
        }
        proof {
            lemma_index_of_absent(before, name@);
        }
        ranges.push(ModuleRange { name: name.to_owned(), start: base, end: end });
        assert(models(ranges@) =~= before.push(r));
        self.ranges = ranges;
        Some(end)
    }

    /// The range on record for the module `name`.
    pub fn get(&self, name: &str) -> (range: Option<&ModuleRange>)
        ensures
            match index_of(self@, name@) {
                Some(i) => range is Some && range->0@ == self@[i],
                None => range is None,
            },
            well_formed(self@),
    {
        proof {
            use_type_invariant(self);
        }
        let mut i: usize = 0;
        while i < self.ranges.len()
            invariant
                i <= self.ranges.len(),
                well_formed(self@),
                forall|j: int| 0 <= j < i ==> (#[trigger] self@[j]).name != name@,
            decreases self.ranges.len() - i,
        {
            if same_name(self.ranges[i].name.as_str(), name) {
                proof {
                    lemma_index_of_found(self@, name@, i as int);
                }
                return Some(&self.ranges[i]);
            }
            i += 1;
        }
        proof {
            lemma_index_of_absent(self@, name@);
        }
        None
    }

    /// The range that owns `addr`: the first, in the order in which modules
    /// were first seen, that has `addr` strictly inside its bounds.
    pub fn lookup_containing(&self, addr: u64) -> (owner: Option<&ModuleRange>)
        ensures
            match first_owner(self@, addr) {
                Some(i) => owner is Some && owner->0@ == self@[i],
                None => owner is None,
            },
            well_formed(self@),
    {
        proof {
            use_type_invariant(self);
        }
        let mut i: usize = 0;
        while i < self.ranges.len()
            invariant
                i <= self.ranges.len(),
                well_formed(self@),
                forall|j: int| 0 <= j < i ==> !(#[trigger] self@[j]).owns(addr),
            decreases self.ranges.len() - i,
        {
            if self.ranges[i].owns(addr) {
                proof {
                    lemma_first_owner_found(self@, addr, i as int);
                }
                return Some(&self.ranges[i]);
            }
            i += 1;
        }
        proof {
            lemma_first_owner_absent(self@, addr);
        }
        None
    }
}

} // verus!
