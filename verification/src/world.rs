//! The resolved declarations of a package, by fully qualified name.
use crate::ast::{DesignDef, DeviceDef, FnDef, PartDef, PinDef, SubdesignDef, VariantDef};
use crate::strmap::StrMap;
use crate::text::push_char;
use vstd::prelude::*;

verus! {

/// What kind of thing a declared name is (`fn`, `pad`, `device`, ...).
#[derive(Debug)]
pub struct Symbol {
    pub kind: String,
}

/// Every declaration visible to the checker, keyed by qualified name.
pub struct World {
    pub fns: StrMap<FnDef>,
    pub subdesigns: StrMap<SubdesignDef>,
    pub designs: StrMap<DesignDef>,
    pub devices: StrMap<DeviceDef>,
    pub parts: StrMap<PartDef>,
    pub traits: StrMap<()>,
    pub pads: StrMap<()>,
    pub footprints: StrMap<()>,
    pub symbols: StrMap<Symbol>,
}

impl World {
    /// A world with no declarations.
    pub fn new() -> (w: World)
        ensures
            w.fns@ == Map::<Seq<char>, FnDef>::empty(),
            w.subdesigns@ == Map::<Seq<char>, SubdesignDef>::empty(),
            w.designs@ == Map::<Seq<char>, DesignDef>::empty(),
            w.devices@ == Map::<Seq<char>, DeviceDef>::empty(),
            w.parts@ == Map::<Seq<char>, PartDef>::empty(),
            w.traits@ == Map::<Seq<char>, ()>::empty(),
            w.pads@ == Map::<Seq<char>, ()>::empty(),
            w.footprints@ == Map::<Seq<char>, ()>::empty(),
            w.symbols@ == Map::<Seq<char>, Symbol>::empty(),
    {
        World {
            fns: StrMap::new(),
            subdesigns: StrMap::new(),
            designs: StrMap::new(),
            devices: StrMap::new(),
            parts: StrMap::new(),
            traits: StrMap::new(),
            pads: StrMap::new(),
            footprints: StrMap::new(),
            symbols: StrMap::new(),
        }
    }
}

/// The pins of the first variant from index `i` on named `v`, if any.
pub open spec fn variant_pins(vs: Seq<VariantDef>, v: Seq<char>, i: int) -> Option<Seq<PinDef>>
    decreases vs.len() - i,
{
    if i < 0 || i >= vs.len() {
        None
    } else if vs[i].name@ == v {
        Some(vs[i].pins@)
    } else {
        variant_pins(vs, v, i + 1)
    }
}

/// The pins of a device: those of the selected variant when it names one
/// of the device's variants, otherwise the device's own.
pub open spec fn pins_of(dev: DeviceDef, variant: Option<Seq<char>>) -> Seq<PinDef> {
    match variant {
        Some(v) => match variant_pins(dev.variants@, v, 0) {
            Some(p) => p,
            None => dev.pins@,
        },
        None => dev.pins@,
    }
}

/// Searching from `i` finds the first variant at or after `i` named `v`.
proof fn lemma_variant_pins_first(vs: Seq<VariantDef>, v: Seq<char>, i: int, k: int)
    requires
        0 <= i <= k < vs.len(),
        vs[k].name@ == v,
        forall|j: int| i <= j < k ==> (#[trigger] vs[j]).name@ != v,
    ensures
        variant_pins(vs, v, i) == Some(vs[k].pins@),
    decreases k - i,
{
    if i < k {
        lemma_variant_pins_first(vs, v, i + 1, k);
    }
}

/// Searching from `i` finds nothing when no variant at or after `i` is
/// named `v`.
proof fn lemma_variant_pins_none(vs: Seq<VariantDef>, v: Seq<char>, i: int)
    requires
        0 <= i,
        forall|j: int| i <= j < vs.len() ==> (#[trigger] vs[j]).name@ != v,
    ensures
        variant_pins(vs, v, i).is_none(),
    decreases vs.len() - i,
{
    if i < vs.len() {
        lemma_variant_pins_none(vs, v, i + 1);
    }
}

/// An instance with a selected variant has that variant's pins: when `v`
/// names the device's `k`-th variant (and no earlier one), the pins are the
/// `k`-th variant's, not the device's own. With no variant selected, or a
/// name that no variant has, they are the device's own pins.
pub proof fn law_selected_variant_pins(dev: DeviceDef, v: Seq<char>, k: int)
    requires
        0 <= k < dev.variants@.len(),
        dev.variants@[k].name@ == v,
        forall|j: int| 0 <= j < k ==> (#[trigger] dev.variants@[j]).name@ != v,
    ensures
        pins_of(dev, Some(v)) == dev.variants@[k].pins@,
{
    lemma_variant_pins_first(dev.variants@, v, 0, k);
}

/// Without a variant that the selection names, an instance has the device's
/// own pins.
pub proof fn law_unselected_variant_pins(dev: DeviceDef, v: Option<Seq<char>>)
    requires
        forall|j: int| 0 <= j < dev.variants@.len() ==> Some((#[trigger] dev.variants@[j]).name@) != v,
    ensures
        pins_of(dev, v) == dev.pins@,
{
    if let Some(n) = v {
        assert forall|j: int| 0 <= j < dev.variants@.len() implies (#[trigger] dev.variants@[j]).name@ != n by {
            assert(Some(dev.variants@[j].name@) != v);
        }
        lemma_variant_pins_none(dev.variants@, n, 0);
    }
}

/// The view of an optional name.
pub open spec fn opt_name(v: Option<&String>) -> Option<Seq<char>> {
    match v {
        Some(s) => Some(s@),
        None => None,
    }
}

impl DeviceDef {
    /// Whether the device declares structural variants.
    pub fn has_variants(&self) -> (b: bool)
        ensures
            b == (self.variants@.len() > 0),
    {
        self.variants.len() > 0
    }

    /// The pins of the selected variant (or of the device itself).
    pub fn pins_for(&self, variant: Option<&String>) -> (pins: &Vec<PinDef>)
        ensures
            pins@ == pins_of(*self, opt_name(variant)),
    {
        match variant {
            None => &self.pins,
            Some(v) => {
                let mut i: usize = 0;
                while i < self.variants.len()
                    invariant
                        i <= self.variants@.len(),
                        opt_name(variant) == Some(v@),
                        variant_pins(self.variants@, v@, 0) == variant_pins(self.variants@, v@, i as int),
                    decreases self.variants@.len() - i,
                {
                    if self.variants[i].name == *v {
                        assert(variant_pins(self.variants@, v@, i as int) == Some(
                            self.variants@[i as int].pins@,
                        ));
                        return &self.variants[i].pins;
                    }
                    i = i + 1;
                }
                assert(variant_pins(self.variants@, v@, i as int).is_none());
                &self.pins
            },
        }
    }
}

/// The part of a qualified name after its last `::` (the whole name when
/// it has none).
pub open spec fn last_sep_end(s: Seq<char>, n: int) -> int
    decreases n,
{
    if n < 2 {
        0
    } else if s[n - 2] == ':' && s[n - 1] == ':' {
        n
    } else {
        last_sep_end(s, n - 1)
    }
}

pub open spec fn short_text(s: Seq<char>) -> Seq<char> {
    s.skip(last_sep_end(s, s.len() as int))
}

/// The unqualified name: the part after the last `::`.
pub fn short(name: &String) -> (s: String)
    ensures
        s@ == short_text(name@),
{
    let len = name.as_str().unicode_len();
    let mut n = len;
    while n >= 2
        invariant
            len == name@.len(),
            n <= len,
            last_sep_end(name@, len as int) == last_sep_end(name@, n as int),
        ensures
            n <= len,
            last_sep_end(name@, len as int) == last_sep_end(name@, n as int),
            n >= 2 ==> (name@[n - 2] == ':' && name@[n - 1] == ':'),
        decreases n,
    {
        if name.as_str().get_char(n - 2) == ':' && name.as_str().get_char(n - 1) == ':' {
            break;
        }
        n = n - 1;
    }
    let start = if n >= 2 {
        n
    } else {
        0
    };
    assert(last_sep_end(name@, len as int) == start);
    let mut s = String::new();
    let mut i = start;
    while i < len
        invariant
            len == name@.len(),
            start <= i <= len,
            s@ == name@.subrange(start as int, i as int),
        decreases len - i,
    {
        push_char(&mut s, name.as_str().get_char(i));
        i = i + 1;
        assert(s@ =~= name@.subrange(start as int, i as int));
    }
    assert(s@ =~= name@.skip(start as int));
    s
}

} // verus!
