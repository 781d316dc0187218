//! Reference checks of a body: what a net, nc or call argument base
//! denotes, whether named pins and ports exist, and whether instantiated
//! and called names are of the right kind.
use crate::ast::{
    expr_text, text_of, CallStmt, DeviceDef, FnParamTy, GenericArg, GenericBound, GenericParam,
    FnDef, Ident, IndexSel, InstStmt, PinDef, PinRef, Span, UnitType,
};
use crate::diag::{err, err_help, err_label, Code, DiagView, Diagnostic, Diagnostics};
use crate::strmap::{is_sorted_listing, lemma_sorted_listing_unique, sorted_listing, StrMap};
use crate::text::{cat, concat, int_string, int_text, join_comma, push_char, push_str};
use crate::world::{law_selected_variant_pins, pins_of, short, short_text, World};
use vstd::prelude::*;

verus! {

/// What a net/nc reference base denotes inside a body.
pub enum Base<'a> {
    /// A `Pin` value parameter: usable bare, has no `.pin`.
    Pin,
    /// An instance of a concrete device, with its selected variant.
    Concrete(&'a DeviceDef, Option<String>),
    /// A subdesign use site: its ports are its whole reference surface.
    Sub { sub_short: String, ports: StrMap<()> },
    /// A trait-typed parameter or generic-typed instance: its pins are
    /// abstract roles, not checkable without a concrete device.
    Abstract,
}

// ---------------------------------------------------------------------------
// Text of references
// ---------------------------------------------------------------------------

/// The source text of an index selector.
pub open spec fn index_text(sel: IndexSel) -> Seq<char> {
    match sel {
        IndexSel::Single(e, _) => seq!['['] + text_of(e) + seq![']'],
        IndexSel::Range { start, end, inclusive, .. } => seq!['['] + text_of(start) + (if inclusive {
            "..="@
        } else {
            ".."@
        }) + text_of(end) + seq![']'],
        IndexSel::List(items, _) => seq!['['] + join_comma(items@.map_values(|e| text_of(e)))
            + seq![']'],
    }
}

/// The source text of a pin reference: `base[index].pin`.
pub open spec fn pin_ref_text(r: PinRef) -> Seq<char> {
    r.base.name@ + (match r.index {
        Some(sel) => index_text(sel),
        None => Seq::empty(),
    }) + (match r.pin {
        Some(p) => seq!['.'] + p.name@,
        None => Seq::empty(),
    })
}

fn index_string(sel: &IndexSel) -> (s: String)
    ensures
        s@ == index_text(*sel),
{
    let mut s = String::new();
    push_char(&mut s, '[');
    match sel {
        IndexSel::Single(e, _) => {
            let t = expr_text(e);
            push_str(&mut s, t.as_str());
        },
        IndexSel::Range { start, end, inclusive, .. } => {
            let t = expr_text(start);
            push_str(&mut s, t.as_str());
            if *inclusive {
                push_str(&mut s, "..=");
            } else {
                push_str(&mut s, "..");
            }
            let t = expr_text(end);
            push_str(&mut s, t.as_str());
        },
        IndexSel::List(items, _) => {
            let mut i: usize = 0;
            let ghost texts = items@.map_values(|e| text_of(e));
            let ghost start = s@;
            while i < items.len()
                invariant
                    i <= items@.len(),
                    texts == items@.map_values(|e| text_of(e)),
                    s@ == start + join_comma(texts.take(i as int)),
                decreases items@.len() - i,
            {
                if i > 0 {
                    push_char(&mut s, ',');
                    push_char(&mut s, ' ');
                }
                let t = expr_text(&items[i]);
                push_str(&mut s, t.as_str());
                assert(texts.take(i + 1).drop_last() =~= texts.take(i as int));
                assert(s@ =~= start + join_comma(texts.take(i + 1)));
                i = i + 1;
            }
            assert(texts.take(items@.len() as int) =~= texts);
        },
    }
    push_char(&mut s, ']');
    assert(s@ =~= index_text(*sel));
    s
}

/// The source text of a pin reference.
pub fn pin_ref_string(r: &PinRef) -> (s: String)
    ensures
        s@ == pin_ref_text(*r),
{
    let mut s = String::new();
    push_str(&mut s, r.base.name.as_str());
    match &r.index {
        Some(sel) => {
            let t = index_string(sel);
            push_str(&mut s, t.as_str());
        },
        None => {},
    }
    match &r.pin {
        Some(p) => {
            push_char(&mut s, '.');
            push_str(&mut s, p.name.as_str());
        },
        None => {},
    }
    assert(s@ =~= pin_ref_text(*r));
    s
}

/// The names of pins, in order.
pub open spec fn pin_names(pins: Seq<PinDef>) -> Seq<Seq<char>> {
    pins.map_values(|p: PinDef| p.name.name@)
}

/// Names joined by `, `.
fn join_names(names: &Vec<String>) -> (s: String)
    ensures
        s@ == join_comma(names@.map_values(|n: String| n@)),
{
    let ghost texts = names@.map_values(|n: String| n@);
    let mut s = String::new();
    let mut i: usize = 0;
    while i < names.len()
        invariant
            i <= names@.len(),
            texts == names@.map_values(|n: String| n@),
            s@ == join_comma(texts.take(i as int)),
        decreases names@.len() - i,
    {
        if i > 0 {
            push_char(&mut s, ',');
            push_char(&mut s, ' ');
        }
        push_str(&mut s, names[i].as_str());
        assert(texts.take(i + 1).drop_last() =~= texts.take(i as int));
        assert(s@ =~= join_comma(texts.take(i + 1)));
        i = i + 1;
    }
    assert(texts.take(names@.len() as int) =~= texts);
    s
}

fn pin_name_list(pins: &Vec<PinDef>) -> (names: Vec<String>)
    ensures
        names@.map_values(|n: String| n@) == pin_names(pins@),
{
    let mut names: Vec<String> = Vec::new();
    let mut i: usize = 0;
    while i < pins.len()
        invariant
            i <= pins@.len(),
            names@.len() == i,
            forall|j: int| 0 <= j < i ==> #[trigger] names@[j]@ == pins@[j].name.name@,
        decreases pins@.len() - i,
    {
        names.push(pins[i].name.name.clone());
        i = i + 1;
    }
    assert(names@.map_values(|n: String| n@) =~= pin_names(pins@));
    names
}

// ---------------------------------------------------------------------------
// Pin references
// ---------------------------------------------------------------------------

pub open spec fn unknown_base_msg(base: Seq<char>) -> Seq<char> {
    concat(seq!["unknown instance or parameter `"@, base, "` in this scope"@])
}

pub open spec fn pin_has_no_pin_msg(base: Seq<char>, pin: Seq<char>) -> Seq<char> {
    concat(seq!["`"@, base, "` is a `Pin` parameter — it is already a pin and has no `."@, pin, "`"@])
}

pub open spec fn bare_instance_msg(base: Seq<char>, first: Seq<char>) -> Seq<char> {
    concat(
        seq![
            "`"@,
            base,
            "` is an instance — reference one of its pins (e.g. `"@,
            base,
            "."@,
            first,
            "`)"@,
        ],
    )
}

pub open spec fn no_pin_msg(dev: Seq<char>, base: Seq<char>, pin: Seq<char>) -> Seq<char> {
    concat(
        seq!["device `"@, short_text(dev), "` (instance `"@, base, "`) has no pin named `"@, pin, "`"@],
    )
}

pub open spec fn bare_sub_msg(base: Seq<char>, first: Seq<char>) -> Seq<char> {
    concat(
        seq![
            "`"@,
            base,
            "` is a subdesign — reference one of its ports (e.g. `"@,
            base,
            "."@,
            first,
            "`)"@,
        ],
    )
}

pub open spec fn no_port_msg(sub: Seq<char>, base: Seq<char>, port: Seq<char>) -> Seq<char> {
    concat(
        seq!["subdesign `"@, sub, "` (use site `"@, base, "`) has no port named `"@, port, "`"@],
    )
}

pub open spec fn port_boundary_help(ports: Seq<Seq<char>>) -> Seq<char> {
    concat(
        seq![
            "its ports are: "@,
            join_comma(ports),
            " — internal nets and instances are behind the port boundary; only `place` may reach in"@,
        ],
    )
}

/// The first element of a list of names, or a placeholder.
pub open spec fn first_or(names: Seq<Seq<char>>, placeholder: Seq<char>) -> Seq<char> {
    if names.len() > 0 {
        names[0]
    } else {
        placeholder
    }
}

/// The errors of one net/nc pin reference: its base must be known, and a
/// concrete device instance must have the named pin, a subdesign the named
/// port.
pub open spec fn pin_ref_diags(bases: Map<Seq<char>, Base>, r: PinRef) -> Seq<DiagView> {
    let base = r.base.name@;
    if !bases.contains_key(base) {
        seq![err(Code::E202, r.base.span, unknown_base_msg(base))]
    } else {
        match bases[base] {
            Base::Pin => match r.pin {
                Some(pin) => seq![err(Code::E602, pin.span, pin_has_no_pin_msg(base, pin.name@))],
                None => Seq::empty(),
            },
            Base::Concrete(dev, variant) => {
                let pins = pins_of(*dev, match variant {
                    Some(v) => Some(v@),
                    None => None,
                });
                match r.pin {
                    None => seq![
                        err(
                            Code::E602,
                            r.span,
                            bare_instance_msg(base, first_or(pin_names(pins), "PIN"@)),
                        ),
                    ],
                    Some(pin) => if pin_names(pins).contains(pin.name@) {
                        Seq::empty()
                    } else {
                        seq![
                            err_help(
                                Code::E203,
                                pin.span,
                                no_pin_msg(dev.name.name@, base, pin.name@),
                                "its pins are: "@ + join_comma(pin_names(pins)),
                            ),
                        ]
                    },
                }
            },
            Base::Sub { sub_short, ports } => match r.pin {
                None => seq![
                    err(
                        Code::E1303,
                        r.span,
                        bare_sub_msg(base, first_or(ports.key_seq(), "PORT"@)),
                    ),
                ],
                Some(pin) => if ports@.contains_key(pin.name@) {
                    Seq::empty()
                } else {
                    seq![
                        err_help(
                            Code::E1301,
                            pin.span,
                            no_port_msg(sub_short@, base, pin.name@),
                            port_boundary_help(ports.key_seq()),
                        ),
                    ]
                },
            },
            Base::Abstract => Seq::empty(),
        }
    }
}

fn contains_pin(pins: &Vec<PinDef>, name: &String) -> (b: bool)
    ensures
        b == pin_names(pins@).contains(name@),
{
    let mut i: usize = 0;
    while i < pins.len()
        invariant
            i <= pins@.len(),
            forall|j: int| 0 <= j < i ==> (#[trigger] pins@[j]).name.name@ != name@,
        decreases pins@.len() - i,
    {
        if pins[i].name.name == *name {
            assert(pin_names(pins@)[i as int] == name@);
            return true;
        }
        i = i + 1;
    }
    false
}

/// A net/nc pin reference: its base must be a known local, and for a
/// concrete device instance the named pin must exist (E202/E602/E203), for
/// a subdesign use site the named port (E1303/E1301).
pub fn check_pin_ref(world: &World, bases: &StrMap<Base>, r: &PinRef, diags: &mut Diagnostics)
    ensures
        final(diags)@ == old(diags)@ + pin_ref_diags(bases@, *r),
{
    let base = &r.base.name;
    match bases.get(base) {
        None => {
            let v = vec!["unknown instance or parameter `", base.as_str(), "` in this scope"];
            let m = cat(&v);
            proof {
                assert(v@.map_values(|p: &str| p@) =~= seq!["unknown instance or parameter `"@, base@, "` in this scope"@]);
            }
            diags.push(Diagnostic::error(Code::E202, r.base.span, m));
        },
        Some(Base::Pin) => {
            match &r.pin {
                Some(pin) => {
                    let v = vec![
                        "`",
                        base.as_str(),
                        "` is a `Pin` parameter — it is already a pin and has no `.",
                        pin.name.as_str(),
                        "`",
                    ];
                    let m = cat(&v);
                    proof {
                        assert(v@.map_values(|p: &str| p@) =~= seq![
                            "`"@,
                            base@,
                            "` is a `Pin` parameter — it is already a pin and has no `."@,
                            pin.name@,
                            "`"@,
                        ]);
                    }
                    diags.push(Diagnostic::error(Code::E602, pin.span, m));
                },
                None => {},
            }
        },
        Some(Base::Concrete(dev, variant)) => {
            let pins = dev.pins_for(
                match variant {
                    Some(v) => Some(v),
                    None => None,
                },
            );
            let names = pin_name_list(pins);
            match &r.pin {
                None => {
                    let first: &str = if names.len() > 0 {
                        names[0].as_str()
                    } else {
                        "PIN"
                    };
                    let v = vec![
                        "`",
                        base.as_str(),
                        "` is an instance — reference one of its pins (e.g. `",
                        base.as_str(),
                        ".",
                        first,
                        "`)",
                    ];
                    let m = cat(&v);
                    proof {
                        assert(names@.len() > 0 ==> names@[0]@ == pin_names(pins@)[0]);
                        assert(v@.map_values(|p: &str| p@) =~= seq![
                            "`"@,
                            base@,
                            "` is an instance — reference one of its pins (e.g. `"@,
                            base@,
                            "."@,
                            first_or(pin_names(pins@), "PIN"@),
                            "`)"@,
                        ]);
                    }
                    diags.push(Diagnostic::error(Code::E602, r.span, m));
                },
                Some(pin) => {
                    if !contains_pin(pins, &pin.name) {
                        let dev_short = short(&dev.name.name);
                        let v = vec![
                            "device `",
                            dev_short.as_str(),
                            "` (instance `",
                            base.as_str(),
                            "`) has no pin named `",
                            pin.name.as_str(),
                            "`",
                        ];
                        let m = cat(&v);
                        let mut help = String::new();
                        push_str(&mut help, "its pins are: ");
                        let joined = join_names(&names);
                        push_str(&mut help, joined.as_str());
                        proof {
                            assert(v@.map_values(|p: &str| p@) =~= seq![
                                "device `"@,
                                short_text(dev.name.name@),
                                "` (instance `"@,
                                base@,
                                "`) has no pin named `"@,
                                pin.name@,
                                "`"@,
                            ]);
                        }
                        diags.push(Diagnostic::error(Code::E203, pin.span, m).with_help(help));
                    }
                },
            }
        },
        Some(Base::Sub { sub_short, ports }) => {
            let port_names = ports.keys();
            match &r.pin {
                None => {
                    let first: &str = if port_names.len() > 0 {
                        port_names[0].as_str()
                    } else {
                        "PORT"
                    };
                    let v = vec![
                        "`",
                        base.as_str(),
                        "` is a subdesign — reference one of its ports (e.g. `",
                        base.as_str(),
                        ".",
                        first,
                        "`)",
                    ];
                    let m = cat(&v);
                    proof {
                        assert(v@.map_values(|p: &str| p@) =~= seq![
                            "`"@,
                            base@,
                            "` is a subdesign — reference one of its ports (e.g. `"@,
                            base@,
                            "."@,
                            first_or(ports.key_seq(), "PORT"@),
                            "`)"@,
                        ]);
                    }
                    diags.push(Diagnostic::error(Code::E1303, r.span, m));
                },
                Some(pin) => {
                    if !ports.contains_key(&pin.name) {
                        let v = vec![
                            "subdesign `",
                            sub_short.as_str(),
                            "` (use site `",
                            base.as_str(),
                            "`) has no port named `",
                            pin.name.as_str(),
                            "`",
                        ];
                        let m = cat(&v);
                        let joined = join_names(&port_names);
                        let h = vec![
                            "its ports are: ",
                            joined.as_str(),
                            " — internal nets and instances are behind the port boundary; only `place` may reach in",
                        ];
                        let help = cat(&h);
                        proof {
                            assert(port_names@.map_values(|n: String| n@) =~= ports.key_seq());
                            assert(v@.map_values(|p: &str| p@) =~= seq![
                                "subdesign `"@,
                                sub_short@,
                                "` (use site `"@,
                                base@,
                                "`) has no port named `"@,
                                pin.name@,
                                "`"@,
                            ]);
                            assert(h@.map_values(|p: &str| p@) =~= seq![
                                "its ports are: "@,
                                join_comma(ports.key_seq()),
                                " — internal nets and instances are behind the port boundary; only `place` may reach in"@,
                            ]);
                        }
                        diags.push(Diagnostic::error(Code::E1301, pin.span, m).with_help(help));
                    }
                },
            }
        },
        Some(Base::Abstract) => {},
    }
    assert(final(diags)@ =~= old(diags)@ + pin_ref_diags(bases@, *r));
}

// ---------------------------------------------------------------------------
// Kinds of instantiated and called names
// ---------------------------------------------------------------------------

/// The kind of a declared name (`fn`, `pad`, ...), or `name`.
pub open spec fn kind_text(world: World, n: Seq<char>) -> Seq<char> {
    if world.symbols@.contains_key(n) {
        world.symbols@[n].kind@
    } else {
        "name"@
    }
}

fn kind_of<'a>(world: &'a World, n: &String) -> (s: &'a str)
    ensures
        s@ == kind_text(*world, n@),
{
    match world.symbols.get(n) {
        Some(sym) => sym.kind.as_str(),
        None => "name",
    }
}

/// The errors of calling `callee`: only a fn can be called.
pub open spec fn call_kind_diags(world: World, callee: Ident) -> Seq<DiagView> {
    let n = callee.name@;
    if world.fns@.contains_key(n) {
        Seq::empty()
    } else if world.devices@.contains_key(n) || world.parts@.contains_key(n) {
        seq![
            err(
                Code::E205,
                callee.span,
                concat(seq!["`"@, n, "` is a device/part — instantiate it with `inst name: "@, n, "`"@]),
            ),
        ]
    } else if world.traits@.contains_key(n) || world.pads@.contains_key(n)
        || world.footprints@.contains_key(n) {
        seq![
            err(
                Code::E205,
                callee.span,
                concat(seq!["`"@, n, "` is a "@, kind_text(world, n), ", not a callable fn"@]),
            ),
        ]
    } else {
        Seq::empty()
    }
}

/// Only a fn can be called (E205); an unresolved name was reported when
/// names were resolved.
pub fn check_call_kind(world: &World, callee: &Ident, diags: &mut Diagnostics)
    ensures
        final(diags)@ == old(diags)@ + call_kind_diags(*world, *callee),
{
    let n = &callee.name;
    if world.fns.contains_key(n) {
        assert(final(diags)@ =~= old(diags)@ + call_kind_diags(*world, *callee));
        return;
    }
    if world.devices.contains_key(n) || world.parts.contains_key(n) {
        let v = vec!["`", n.as_str(), "` is a device/part — instantiate it with `inst name: ", n.as_str(), "`"];
        let m = cat(&v);
        proof {
            assert(v@.map_values(|p: &str| p@) =~= seq!["`"@, n@, "` is a device/part — instantiate it with `inst name: "@, n@, "`"@]);
        }
        diags.push(Diagnostic::error(Code::E205, callee.span, m));
    } else if world.traits.contains_key(n) || world.pads.contains_key(n) || world.footprints.contains_key(n) {
        let kind = kind_of(world, n);
        let v = vec!["`", n.as_str(), "` is a ", kind, ", not a callable fn"];
        let m = cat(&v);
        proof {
            assert(v@.map_values(|p: &str| p@) =~= seq!["`"@, n@, "` is a "@, kind_text(*world, n@), ", not a callable fn"@]);
        }
        diags.push(Diagnostic::error(Code::E205, callee.span, m));
    }
    assert(final(diags)@ =~= old(diags)@ + call_kind_diags(*world, *callee));
}

/// The errors of instantiating `ty`: only a device, a part, or a
/// trait-bounded generic of the enclosing definition can be instantiated.
pub open spec fn inst_kind_diags(
    world: World,
    trait_generics: Set<Seq<char>>,
    unit_generics: Set<Seq<char>>,
    ty: Ident,
) -> Seq<DiagView> {
    let n = ty.name@;
    if trait_generics.contains(n) || world.devices@.contains_key(n) || world.parts@.contains_key(n) {
        Seq::empty()
    } else if unit_generics.contains(n) {
        seq![
            err(
                Code::E205,
                ty.span,
                concat(
                    seq![
                        "`"@,
                        n,
                        "` is a unit-typed generic value, not a device or part — `inst` requires a concrete device or part"@,
                    ],
                ),
            ),
        ]
    } else if world.traits@.contains_key(n) {
        seq![
            err(
                Code::E205,
                ty.span,
                concat(
                    seq!["`"@, n, "` is a trait — `inst` requires a concrete device or part"@],
                ),
            ),
        ]
    } else if world.fns@.contains_key(n) || world.pads@.contains_key(n)
        || world.footprints@.contains_key(n) {
        seq![
            err(
                Code::E205,
                ty.span,
                concat(
                    seq![
                        "`"@,
                        n,
                        "` is a "@,
                        kind_text(world, n),
                        ", not a device or part — `inst` requires a concrete device or part"@,
                    ],
                ),
            ),
        ]
    } else {
        Seq::empty()
    }
}

/// A trait-bound generic is a valid instance type; a unit-bound generic is
/// a value and may not be instantiated, nor may a trait, fn, pad or
/// footprint (E205). An unresolved name was reported when names were
/// resolved.
pub fn check_inst_kind(
    world: &World,
    trait_generics: &StrMap<()>,
    unit_generics: &StrMap<()>,
    ty: &Ident,
    diags: &mut Diagnostics,
)
    ensures
        final(diags)@ == old(diags)@ + inst_kind_diags(
            *world,
            trait_generics@.dom(),
            unit_generics@.dom(),
            *ty,
        ),
{
    let n = &ty.name;
    if trait_generics.contains_key(n) || world.devices.contains_key(n) || world.parts.contains_key(n) {
        assert(final(diags)@ =~= old(diags)@ + inst_kind_diags(*world, trait_generics@.dom(), unit_generics@.dom(), *ty));
        return;
    }
    if unit_generics.contains_key(n) {
        let v = vec![
            "`",
            n.as_str(),
            "` is a unit-typed generic value, not a device or part — `inst` requires a concrete device or part",
        ];
        let m = cat(&v);
        proof {
            assert(v@.map_values(|p: &str| p@) =~= seq![
                "`"@,
                n@,
                "` is a unit-typed generic value, not a device or part — `inst` requires a concrete device or part"@,
            ]);
        }
        diags.push(Diagnostic::error(Code::E205, ty.span, m));
    } else if world.traits.contains_key(n) {
        let v = vec!["`", n.as_str(), "` is a trait — `inst` requires a concrete device or part"];
        let m = cat(&v);
        proof {
            assert(v@.map_values(|p: &str| p@) =~= seq!["`"@, n@, "` is a trait — `inst` requires a concrete device or part"@]);
        }
        diags.push(Diagnostic::error(Code::E205, ty.span, m));
    } else if world.fns.contains_key(n) || world.pads.contains_key(n) || world.footprints.contains_key(n) {
        let kind = kind_of(world, n);
        let v = vec![
            "`",
            n.as_str(),
            "` is a ",
            kind,
            ", not a device or part — `inst` requires a concrete device or part",
        ];
        let m = cat(&v);
        proof {
            assert(v@.map_values(|p: &str| p@) =~= seq![
                "`"@,
                n@,
                "` is a "@,
                kind_text(*world, n@),
                ", not a device or part — `inst` requires a concrete device or part"@,
            ]);
        }
        diags.push(Diagnostic::error(Code::E205, ty.span, m));
    }
    assert(final(diags)@ =~= old(diags)@ + inst_kind_diags(*world, trait_generics@.dom(), unit_generics@.dom(), *ty));
}

/// The view of an optional variant selector.
pub open spec fn variant_name(v: Option<Ident>) -> Option<Seq<char>> {
    match v {
        Some(id) => Some(id.name@),
        None => None,
    }
}

/// The view of an optional owned name.
pub open spec fn opt_string(v: Option<String>) -> Option<Seq<char>> {
    match v {
        Some(s) => Some(s@),
        None => None,
    }
}

/// `b` is what an instance of `inst`'s type denotes as a reference base:
/// abstract for a trait-bound generic, the device (or a part's device) with
/// its selected variant, and abstract for anything unresolved.
pub open spec fn is_inst_base(b: Base, world: World, trait_generics: Set<Seq<char>>, inst: InstStmt) -> bool {
    let ty = inst.ty.name.name@;
    if trait_generics.contains(ty) {
        b is Abstract
    } else if world.devices@.contains_key(ty) {
        b matches Base::Concrete(dev, v) && *dev == world.devices@[ty] && opt_string(v) == variant_name(
            inst.ty.variant,
        )
    } else if world.parts@.contains_key(ty) && world.devices@.contains_key(
        world.parts@[ty].device.name.name@,
    ) {
        b matches Base::Concrete(dev, v) && *dev == world.devices@[world.parts@[ty].device.name.name@]
            && opt_string(v) == variant_name(world.parts@[ty].device.variant)
    } else {
        b is Abstract
    }
}

/// The device (and selected variant) an instance denotes, if concrete.
pub fn classify_inst_base<'a>(
    world: &'a World,
    trait_generics: &StrMap<()>,
    inst: &InstStmt,
) -> (b: Base<'a>)
    ensures
        is_inst_base(b, *world, trait_generics@.dom(), *inst),
{
    let ty = &inst.ty.name.name;
    if trait_generics.contains_key(ty) {
        return Base::Abstract;
    }
    match world.devices.get(ty) {
        Some(dev) => {
            return Base::Concrete(
                dev,
                match &inst.ty.variant {
                    Some(v) => Some(v.name.clone()),
                    None => None,
                },
            );
        },
        None => {},
    }
    match world.parts.get(ty) {
        Some(part) => match world.devices.get(&part.device.name.name) {
            Some(dev) => {
                return Base::Concrete(
                    dev,
                    match &part.device.variant {
                        Some(v) => Some(v.name.clone()),
                        None => None,
                    },
                );
            },
            None => {},
        },
        None => {},
    }
    Base::Abstract
}

// ---------------------------------------------------------------------------
// Variants, generic arguments and call arguments
// ---------------------------------------------------------------------------

/// The names of a device's variants, in order.
pub open spec fn variant_names(dev: DeviceDef) -> Seq<Seq<char>> {
    dev.variants@.map_values(|v: crate::ast::VariantDef| v.name@)
}

/// The errors of selecting (or not selecting) a variant: a device with
/// variants needs an explicit selector (E904).
pub open spec fn variant_selection_diags(world: World, inst: InstStmt) -> Seq<DiagView> {
    let n = inst.ty.name.name@;
    if world.devices@.contains_key(n) && world.devices@[n].variants@.len() > 0
        && inst.ty.variant.is_none() {
        seq![
            err_help(
                Code::E904,
                inst.ty.span,
                concat(
                    seq![
                        "device `"@,
                        short_text(n),
                        "` declares variants — select one with a `[VARIANT]` suffix (no implicit default)"@,
                    ],
                ),
                "valid variants are: "@ + join_comma(variant_names(world.devices@[n])),
            ),
        ]
    } else {
        Seq::empty()
    }
}

/// A concrete device with variants instantiated without a selector is
/// E904. Wrong or spurious selectors are reported at expansion.
pub fn check_variant_selection(world: &World, inst: &InstStmt, diags: &mut Diagnostics)
    ensures
        final(diags)@ == old(diags)@ + variant_selection_diags(*world, *inst),
{
    let dev = match world.devices.get(&inst.ty.name.name) {
        Some(d) => d,
        None => {
            assert(final(diags)@ =~= old(diags)@ + variant_selection_diags(*world, *inst));
            return;
        },
    };
    if dev.has_variants() && inst.ty.variant.is_none() {
        let name = short(&inst.ty.name.name);
        let v = vec![
            "device `",
            name.as_str(),
            "` declares variants — select one with a `[VARIANT]` suffix (no implicit default)",
        ];
        let m = cat(&v);
        let mut names: Vec<String> = Vec::new();
        let mut i: usize = 0;
        while i < dev.variants.len()
            invariant
                i <= dev.variants@.len(),
                names@.len() == i,
                forall|j: int| 0 <= j < i ==> #[trigger] names@[j]@ == dev.variants@[j].name@,
            decreases dev.variants@.len() - i,
        {
            names.push(dev.variants[i].name.clone());
            i = i + 1;
        }
        assert(names@.map_values(|n: String| n@) =~= variant_names(*dev));
        let joined = join_names(&names);
        let mut help = String::new();
        push_str(&mut help, "valid variants are: ");
        push_str(&mut help, joined.as_str());
        proof {
            assert(v@.map_values(|p: &str| p@) =~= seq![
                "device `"@,
                short_text(inst.ty.name.name@),
                "` declares variants — select one with a `[VARIANT]` suffix (no implicit default)"@,
            ]);
        }
        diags.push(Diagnostic::error(Code::E904, inst.ty.span, m).with_help(help));
    }
    assert(final(diags)@ =~= old(diags)@ + variant_selection_diags(*world, *inst));
}

/// `s` when `n` is not 1.
pub open spec fn plural(n: int) -> Seq<char> {
    if n == 1 {
        ""@
    } else {
        "s"@
    }
}

fn plural_of(n: usize) -> (s: &'static str)
    ensures
        s@ == plural(n as int),
{
    if n == 1 {
        ""
    } else {
        "s"
    }
}

/// The message of a generic argument of the wrong unit.
pub open spec fn wrong_unit_msg(param: Seq<char>, expected: UnitType, found: UnitType) -> Seq<char> {
    concat(
        seq![
            "generic argument for `"@,
            param,
            "` has the wrong unit type: expected `"@,
            expected.name_text(),
            "`, found `"@,
            found.name_text(),
            "`"@,
        ],
    )
}

/// The label on a wrong-unit argument: its spelling and its unit.
pub open spec fn wrong_unit_label(value: Seq<char>, found: UnitType) -> Seq<char> {
    concat(seq!["`"@, value, "` is a `"@, found.name_text(), "`"@])
}

/// E112: a generic argument spelled `value`, of unit `found`, for a
/// parameter of unit `expected`.
pub open spec fn wrong_unit_diag(
    param: GenericParam,
    expected: UnitType,
    found: UnitType,
    value: Seq<char>,
    span: Span,
) -> DiagView {
    err_label(
        Code::E112,
        span,
        wrong_unit_msg(param.name.name@, expected, found),
        wrong_unit_label(value, found),
    )
}

/// E112: a generic argument of the wrong unit for its parameter, labelled
/// with the argument's spelling and unit.
pub fn wrong_unit_argument(
    param: &GenericParam,
    expected: UnitType,
    found: UnitType,
    value: &str,
    span: Span,
) -> (d: Diagnostic)
    ensures
        d@ == wrong_unit_diag(*param, expected, found, value@, span),
{
    let parts = vec![
        "generic argument for `",
        param.name.name.as_str(),
        "` has the wrong unit type: expected `",
        expected.unit_name(),
        "`, found `",
        found.unit_name(),
        "`",
    ];
    let m = cat(&parts);
    proof {
        assert(parts@.map_values(|p: &str| p@) =~= seq![
            "generic argument for `"@,
            param.name.name@,
            "` has the wrong unit type: expected `"@,
            expected.name_text(),
            "`, found `"@,
            found.name_text(),
            "`"@,
        ]);
    }
    let lp = vec!["`", value, "` is a `", found.unit_name(), "`"];
    let l = cat(&lp);
    proof {
        assert(lp@.map_values(|p: &str| p@) =~= seq!["`"@, value@, "` is a `"@, found.name_text(), "`"@]);
    }
    Diagnostic::error(Code::E112, span, m).with_label(l)
}

/// The unit mismatches between parameters and arguments, pairwise from
/// index `i` on.
pub open spec fn unit_arg_diags(params: Seq<GenericParam>, args: Seq<GenericArg>, i: int) -> Seq<
    DiagView,
>
    decreases params.len() - i,
{
    if i < 0 || i >= params.len() || i >= args.len() {
        Seq::empty()
    } else {
        let here = match (params[i].bound, args[i]) {
            (GenericBound::Unit(u, _), GenericArg::Unit(v, span)) => if v.unit != u {
                seq![wrong_unit_diag(params[i], u, v.unit, v.text@, span)]
            } else {
                Seq::empty()
            },
            _ => Seq::empty(),
        };
        here + unit_arg_diags(params, args, i + 1)
    }
}

/// The errors of a device instance's generic arguments: too many (E401),
/// or a unit literal of the wrong unit (E112).
pub open spec fn device_generic_diags(world: World, inst: InstStmt) -> Seq<DiagView> {
    let n = inst.ty.name.name@;
    if !world.devices@.contains_key(n) {
        Seq::empty()
    } else {
        let dev = world.devices@[n];
        let args = inst.ty.generic_args@;
        let g = dev.generics@.len();
        (if args.len() > g {
            seq![
                err(
                    Code::E401,
                    inst.ty.span,
                    concat(
                        seq![
                            "device `"@,
                            short_text(n),
                            "` takes "@,
                            int_text(g as int),
                            " generic argument"@,
                            plural(g as int),
                            ", but "@,
                            int_text(args.len() as int),
                            " were given"@,
                        ],
                    ),
                ),
            ]
        } else {
            Seq::empty()
        }) + unit_arg_diags(dev.generics@, args, 0)
    }
}

/// Generic arguments of a device instance: too many is E401, and a unit
/// literal whose unit mismatches its unit-bound parameter is E112. A name
/// argument is a passthrough whose bound is checked at call-time
/// substitution.
pub fn check_device_generic_args(world: &World, inst: &InstStmt, diags: &mut Diagnostics)
    ensures
        final(diags)@ == old(diags)@ + device_generic_diags(*world, *inst),
{
    let dev = match world.devices.get(&inst.ty.name.name) {
        Some(d) => d,
        None => {
            assert(final(diags)@ =~= old(diags)@ + device_generic_diags(*world, *inst));
            return;
        },
    };
    let args = &inst.ty.generic_args;
    let ghost d0 = diags@;
    if args.len() > dev.generics.len() {
        let name = short(&inst.ty.name.name);
        let g = int_string(dev.generics.len() as i128);
        let a = int_string(args.len() as i128);
        let v = vec![
            "device `",
            name.as_str(),
            "` takes ",
            g.as_str(),
            " generic argument",
            plural_of(dev.generics.len()),
            ", but ",
            a.as_str(),
            " were given",
        ];
        let m = cat(&v);
        proof {
            assert(v@.map_values(|p: &str| p@) =~= seq![
                "device `"@,
                short_text(inst.ty.name.name@),
                "` takes "@,
                int_text(dev.generics@.len() as int),
                " generic argument"@,
                plural(dev.generics@.len() as int),
                ", but "@,
                int_text(args@.len() as int),
                " were given"@,
            ]);
        }
        diags.push(Diagnostic::error(Code::E401, inst.ty.span, m));
    }
    let ghost d1 = diags@;
    let mut i: usize = 0;
    while i < dev.generics.len() && i < args.len()
        invariant
            i <= dev.generics@.len(),
            diags@ + unit_arg_diags(dev.generics@, args@, i as int) == d1 + unit_arg_diags(
                dev.generics@,
                args@,
                0,
            ),
        decreases dev.generics@.len() - i,
    {
        let ghost before = diags@;
        match (&dev.generics[i].bound, &args[i]) {
            (GenericBound::Unit(u, _), GenericArg::Unit(v, span)) => {
                if v.unit != *u {
                    diags.push(wrong_unit_argument(&dev.generics[i], *u, v.unit, v.text.as_str(), *span));
                }
            },
            _ => {},
        }
        proof {
            assert(diags@ + unit_arg_diags(dev.generics@, args@, i + 1) =~= before
                + unit_arg_diags(dev.generics@, args@, i as int));
        }
        i = i + 1;
    }
    assert(unit_arg_diags(dev.generics@, args@, i as int) == Seq::<DiagView>::empty());
    assert(final(diags)@ =~= old(diags)@ + device_generic_diags(*world, *inst));
}

/// Whether the callee's `i`-th parameter takes an instance.
pub open spec fn takes_instance(callee: Option<crate::ast::FnDef>, i: int) -> bool {
    match callee {
        Some(f) => 0 <= i < f.params@.len() && match f.params@[i].ty {
            FnParamTy::Generic(_) => true,
            FnParamTy::ImplTrait(_, _) => true,
            FnParamTy::Pin(_) => false,
        },
        None => false,
    }
}

/// The errors of one call argument: an instance parameter needs a whole
/// known instance (E503/E202); any other argument is a pin reference.
pub open spec fn call_arg_diags(
    bases: Map<Seq<char>, Base>,
    callee: Option<crate::ast::FnDef>,
    arg: PinRef,
    i: int,
) -> Seq<DiagView> {
    if takes_instance(callee, i) {
        if arg.pin.is_some() {
            seq![
                err(
                    Code::E503,
                    arg.span,
                    concat(seq!["expected an instance, found pin reference `"@, pin_ref_text(arg), "`"@]),
                ),
            ]
        } else if bases.contains_key(arg.base.name@) {
            match bases[arg.base.name@] {
                Base::Pin => seq![
                    err(
                        Code::E503,
                        arg.span,
                        concat(
                            seq![
                                "expected an instance, but `"@,
                                arg.base.name@,
                                "` is a `Pin` parameter"@,
                            ],
                        ),
                    ),
                ],
                Base::Sub { .. } => seq![
                    err(
                        Code::E202,
                        arg.base.span,
                        concat(seq!["unknown instance `"@, arg.base.name@, "` in this scope"@]),
                    ),
                ],
                _ => Seq::empty(),
            }
        } else {
            seq![
                err(
                    Code::E202,
                    arg.base.span,
                    concat(seq!["unknown instance `"@, arg.base.name@, "` in this scope"@]),
                ),
            ]
        }
    } else {
        pin_ref_diags(bases, arg)
    }
}

/// The errors of the arguments from index `i` on.
pub open spec fn call_args_diags_from(
    bases: Map<Seq<char>, Base>,
    callee: Option<crate::ast::FnDef>,
    args: Seq<PinRef>,
    i: int,
) -> Seq<DiagView>
    decreases args.len() - i,
{
    if i < 0 || i >= args.len() {
        Seq::empty()
    } else {
        call_arg_diags(bases, callee, args[i], i) + call_args_diags_from(bases, callee, args, i + 1)
    }
}

/// The callee of a call, if it is a known fn.
pub open spec fn callee_of(world: World, call: CallStmt) -> Option<crate::ast::FnDef> {
    if world.fns@.contains_key(call.callee.name@) {
        Some(world.fns@[call.callee.name@])
    } else {
        None
    }
}

/// The errors of a call's value arguments: their count (E502) and kinds.
pub open spec fn call_args_diags(world: World, bases: Map<Seq<char>, Base>, call: CallStmt) -> Seq<
    DiagView,
> {
    let callee = callee_of(world, call);
    (match callee {
        Some(f) => if call.args@.len() != f.params@.len() {
            seq![
                err(
                    Code::E502,
                    call.span,
                    concat(
                        seq![
                            "fn `"@,
                            short_text(call.callee.name@),
                            "` takes "@,
                            int_text(f.params@.len() as int),
                            " argument"@,
                            plural(f.params@.len() as int),
                            ", but "@,
                            int_text(call.args@.len() as int),
                            " were given"@,
                        ],
                    ),
                ),
            ]
        } else {
            Seq::empty()
        },
        None => Seq::empty(),
    }) + call_args_diags_from(bases, callee, call.args@, 0)
}

/// A call's value-argument count and reference kinds, by the callee's
/// parameter types: a whole instance is valid for an instance parameter;
/// a `Pin` parameter requires a pin reference. Selectors and bounds are
/// checked at expansion.
pub fn check_call_args(world: &World, call: &CallStmt, bases: &StrMap<Base>, diags: &mut Diagnostics)
    ensures
        final(diags)@ == old(diags)@ + call_args_diags(*world, bases@, *call),
{
    let callee = world.fns.get(&call.callee.name);
    let ghost spec_callee = callee_of(*world, *call);
    assert(match callee {
        Some(f) => spec_callee == Some(*f),
        None => spec_callee.is_none(),
    });
    match callee {
        Some(f) => {
            if call.args.len() != f.params.len() {
                let name = short(&call.callee.name);
                let p = int_string(f.params.len() as i128);
                let a = int_string(call.args.len() as i128);
                let v = vec![
                    "fn `",
                    name.as_str(),
                    "` takes ",
                    p.as_str(),
                    " argument",
                    plural_of(f.params.len()),
                    ", but ",
                    a.as_str(),
                    " were given",
                ];
                let m = cat(&v);
                proof {
                    assert(v@.map_values(|p: &str| p@) =~= seq![
                        "fn `"@,
                        short_text(call.callee.name@),
                        "` takes "@,
                        int_text(f.params@.len() as int),
                        " argument"@,
                        plural(f.params@.len() as int),
                        ", but "@,
                        int_text(call.args@.len() as int),
                        " were given"@,
                    ]);
                }
                diags.push(Diagnostic::error(Code::E502, call.span, m));
            }
        },
        None => {},
    }
    let ghost d1 = diags@;
    let mut i: usize = 0;
    while i < call.args.len()
        invariant
            i <= call.args@.len(),
            spec_callee == callee_of(*world, *call),
            match callee {
                Some(f) => spec_callee == Some(*f),
                None => spec_callee.is_none(),
            },
            diags@ + call_args_diags_from(bases@, spec_callee, call.args@, i as int) == d1
                + call_args_diags_from(bases@, spec_callee, call.args@, 0),
        decreases call.args@.len() - i,
    {
        let ghost before = diags@;
        let arg = &call.args[i];
        let instance_param = match callee {
            Some(f) => {
                if i < f.params.len() {
                    match &f.params[i].ty {
                        FnParamTy::Generic(_) => true,
                        FnParamTy::ImplTrait(_, _) => true,
                        FnParamTy::Pin(_) => false,
                    }
                } else {
                    false
                }
            },
            None => false,
        };
        assert(instance_param == takes_instance(spec_callee, i as int));
        if instance_param {
            if arg.pin.is_some() {
                let t = pin_ref_string(arg);
                let v = vec!["expected an instance, found pin reference `", t.as_str(), "`"];
                let m = cat(&v);
                proof {
                    assert(v@.map_values(|p: &str| p@) =~= seq!["expected an instance, found pin reference `"@, pin_ref_text(*arg), "`"@]);
                }
                diags.push(Diagnostic::error(Code::E503, arg.span, m));
            } else {
                match bases.get(&arg.base.name) {
                    Some(Base::Concrete(..)) => {},
                    Some(Base::Abstract) => {},
                    Some(Base::Pin) => {
                        let v = vec!["expected an instance, but `", arg.base.name.as_str(), "` is a `Pin` parameter"];
                        let m = cat(&v);
                        proof {
                            assert(v@.map_values(|p: &str| p@) =~= seq!["expected an instance, but `"@, arg.base.name@, "` is a `Pin` parameter"@]);
                        }
                        diags.push(Diagnostic::error(Code::E503, arg.span, m));
                    },
                    _ => {
                        let v = vec!["unknown instance `", arg.base.name.as_str(), "` in this scope"];
                        let m = cat(&v);
                        proof {
                            assert(v@.map_values(|p: &str| p@) =~= seq!["unknown instance `"@, arg.base.name@, "` in this scope"@]);
                        }
                        diags.push(Diagnostic::error(Code::E202, arg.base.span, m));
                    },
                }
            }
        } else {
            check_pin_ref(world, bases, arg, diags);
        }
        proof {
            assert(diags@ =~= before + call_arg_diags(bases@, spec_callee, call.args@[i as int], i as int));
            assert(diags@ + call_args_diags_from(bases@, spec_callee, call.args@, i + 1) =~= before
                + call_args_diags_from(bases@, spec_callee, call.args@, i as int));
        }
        i = i + 1;
    }
    assert(final(diags)@ =~= old(diags)@ + call_args_diags(*world, bases@, *call));
}

// ---------------------------------------------------------------------------
// Nested subdesign use sites
// ---------------------------------------------------------------------------

/// How a generic parameter is described in help text.
pub open spec fn describe_text(param: GenericParam) -> Seq<char> {
    concat(
        seq![
            "`"@,
            param.name.name@,
            "` expects "@,
            match param.bound {
                GenericBound::Int(_) => "an Int"@,
                GenericBound::Unit(u, _) => "a "@ + u.name_text(),
                GenericBound::Traits(_) => "a type satisfying its trait bounds"@,
            },
        ],
    )
}

/// A one-line description of what a generic parameter expects.
pub fn describe_param(param: &GenericParam) -> (s: String)
    ensures
        s@ == describe_text(*param),
{
    let mut bound = String::new();
    match &param.bound {
        GenericBound::Int(_) => push_str(&mut bound, "an Int"),
        GenericBound::Unit(u, _) => {
            push_str(&mut bound, "a ");
            push_str(&mut bound, u.unit_name());
        },
        GenericBound::Traits(_) => push_str(&mut bound, "a type satisfying its trait bounds"),
    }
    let v = vec!["`", param.name.name.as_str(), "` expects ", bound.as_str()];
    let m = cat(&v);
    proof {
        assert(v@.map_values(|p: &str| p@) =~= seq![
            "`"@,
            param.name.name@,
            "` expects "@,
            match param.bound {
                GenericBound::Int(_) => "an Int"@,
                GenericBound::Unit(u, _) => "a "@ + u.name_text(),
                GenericBound::Traits(_) => "a type satisfying its trait bounds"@,
            },
        ]);
    }
    m
}

/// An error with a secondary span.
pub open spec fn err_secondary(code: Code, span: Span, message: Seq<char>, at: Span, label: Seq<char>) -> DiagView {
    DiagView { code, span, message, label: None, help: None, secondary: Some((at, label)) }
}

/// The names of a subdesign's ports.
pub open spec fn port_names(sd: crate::ast::SubdesignDef) -> Set<Seq<char>> {
    sd.ports@.map_values(|p: crate::ast::Port| p.name.name@).to_set()
}

/// The missing-argument errors for parameters from index `i` on.
pub open spec fn missing_generic_diags(
    params: Seq<GenericParam>,
    nargs: int,
    span: Span,
    sub: Seq<char>,
    i: int,
) -> Seq<DiagView>
    decreases params.len() - i,
{
    if i < 0 || i >= params.len() {
        Seq::empty()
    } else {
        (if i >= nargs && params[i].default.is_none() {
            seq![
                err_help(
                    Code::E401,
                    span,
                    concat(
                        seq![
                            "missing generic argument for `"@,
                            params[i].name.name@,
                            "` of subdesign `"@,
                            sub,
                            "` (it has no default)"@,
                        ],
                    ),
                    describe_text(params[i]),
                ),
            ]
        } else {
            Seq::empty()
        }) + missing_generic_diags(params, nargs, span, sub, i + 1)
    }
}

/// The connection errors from index `i` on, where `seen` maps each port
/// connected so far to its latest connection: a repeated port (E1301, with
/// the earlier connection), or a port the subdesign does not have (E1301).
pub open spec fn conn_diags(
    conns: Seq<crate::ast::PortConn>,
    ports: Set<Seq<char>>,
    sub: Seq<char>,
    site: Seq<char>,
    seen: Map<Seq<char>, Span>,
    i: int,
) -> Seq<DiagView>
    decreases conns.len() - i,
{
    if i < 0 || i >= conns.len() {
        Seq::empty()
    } else {
        let c = conns[i];
        let p = c.port.name@;
        let here = if seen.contains_key(p) {
            seq![
                err_secondary(
                    Code::E1301,
                    c.port.span,
                    concat(seq!["port `"@, p, "` is connected more than once"@]),
                    seen[p],
                    "first connected here"@,
                ),
            ]
        } else if !ports.contains(p) {
            seq![
                err_help(
                    Code::E1301,
                    c.port.span,
                    concat(
                        seq!["subdesign `"@, sub, "` (use site `"@, site, "`) has no port named `"@, p, "`"@],
                    ),
                    "its ports are: "@ + join_comma(sorted_listing(ports)),
                ),
            ]
        } else {
            Seq::empty()
        };
        here + conn_diags(conns, ports, sub, site, seen.insert(p, c.span), i + 1)
    }
}

/// The statically knowable errors of a nested subdesign use site.
pub open spec fn sub_use_diags(world: World, stmt: crate::ast::SubdesignUseStmt) -> Seq<DiagView> {
    let n = stmt.ty.name.name@;
    if !world.subdesigns@.contains_key(n) {
        if world.symbols@.contains_key(n) {
            seq![
                err(
                    Code::E205,
                    stmt.ty.name.span,
                    concat(
                        seq![
                            "`"@,
                            n,
                            "` is a "@,
                            world.symbols@[n].kind@,
                            " — a `subdesign` use site requires a subdesign"@,
                        ],
                    ),
                ),
            ]
        } else {
            Seq::empty()
        }
    } else {
        let sd = world.subdesigns@[n];
        let sub = short_text(n);
        let g = sd.generics@.len() as int;
        let a = stmt.ty.generic_args@.len() as int;
        (match stmt.ty.variant {
            Some(sel) => seq![
                err(
                    Code::E1303,
                    sel.span,
                    concat(seq!["a subdesign has no variants — remove the `["@, sel.name@, "]` selector"@]),
                ),
            ],
            None => Seq::empty(),
        }) + (if a > g {
            seq![
                err(
                    Code::E401,
                    stmt.ty.span,
                    concat(
                        seq![
                            "subdesign `"@,
                            sub,
                            "` takes "@,
                            int_text(g),
                            " generic argument"@,
                            plural(g),
                            ", but "@,
                            int_text(a),
                            " "@,
                            if a == 1 {
                                "was"@
                            } else {
                                "were"@
                            },
                            " given"@,
                        ],
                    ),
                ),
            ]
        } else {
            Seq::empty()
        }) + missing_generic_diags(sd.generics@, a, stmt.ty.span, sub, 0) + conn_diags(
            stmt.conns@,
            port_names(sd),
            sub,
            stmt.name.name@,
            Map::empty(),
            0,
        )
    }
}

/// The statically knowable properties of a nested use site: target kind
/// (E205), no variant selector (E1303), generic arity and missing
/// arguments without defaults (E401), and connection port keys (E1301).
pub fn check_sub_use_site(world: &World, stmt: &crate::ast::SubdesignUseStmt, diags: &mut Diagnostics)
    ensures
        final(diags)@ == old(diags)@ + sub_use_diags(*world, *stmt),
{
    let name = &stmt.ty.name;
    let sd = match world.subdesigns.get(&name.name) {
        Some(sd) => sd,
        None => {
            match world.symbols.get(&name.name) {
                Some(sym) => {
                    let v = vec![
                        "`",
                        name.name.as_str(),
                        "` is a ",
                        sym.kind.as_str(),
                        " — a `subdesign` use site requires a subdesign",
                    ];
                    let m = cat(&v);
                    proof {
                        assert(v@.map_values(|p: &str| p@) =~= seq![
                            "`"@,
                            name.name@,
                            "` is a "@,
                            sym.kind@,
                            " — a `subdesign` use site requires a subdesign"@,
                        ]);
                    }
                    diags.push(Diagnostic::error(Code::E205, name.span, m));
                },
                None => {},
            }
            assert(final(diags)@ =~= old(diags)@ + sub_use_diags(*world, *stmt));
            return;
        },
    };
    let sub = short(&name.name);
    match &stmt.ty.variant {
        Some(sel) => {
            let v = vec!["a subdesign has no variants — remove the `[", sel.name.as_str(), "]` selector"];
            let m = cat(&v);
            proof {
                assert(v@.map_values(|p: &str| p@) =~= seq!["a subdesign has no variants — remove the `["@, sel.name@, "]` selector"@]);
            }
            diags.push(Diagnostic::error(Code::E1303, sel.span, m));
        },
        None => {},
    }
    let args = &stmt.ty.generic_args;
    if args.len() > sd.generics.len() {
        let g = int_string(sd.generics.len() as i128);
        let a = int_string(args.len() as i128);
        let was: &str = if args.len() == 1 {
            "was"
        } else {
            "were"
        };
        let v = vec![
            "subdesign `",
            sub.as_str(),
            "` takes ",
            g.as_str(),
            " generic argument",
            plural_of(sd.generics.len()),
            ", but ",
            a.as_str(),
            " ",
            was,
            " given",
        ];
        let m = cat(&v);
        proof {
            assert(v@.map_values(|p: &str| p@) =~= seq![
                "subdesign `"@,
                short_text(name.name@),
                "` takes "@,
                int_text(sd.generics@.len() as int),
                " generic argument"@,
                plural(sd.generics@.len() as int),
                ", but "@,
                int_text(args@.len() as int),
                " "@,
                if args@.len() == 1 {
                    "was"@
                } else {
                    "were"@
                },
                " given"@,
            ]);
        }
        diags.push(Diagnostic::error(Code::E401, stmt.ty.span, m));
    }
    // Arguments that are given are judged at expansion, where their
    // substitution is known.
    let ghost d1 = diags@;
    let ghost sub_v = short_text(name.name@);
    let ghost nargs = args@.len() as int;
    let mut i: usize = 0;
    while i < sd.generics.len()
        invariant
            i <= sd.generics@.len(),
            sub@ == sub_v,
            nargs == args@.len(),
            diags@ + missing_generic_diags(sd.generics@, nargs, stmt.ty.span, sub_v, i as int) == d1
                + missing_generic_diags(sd.generics@, nargs, stmt.ty.span, sub_v, 0),
        decreases sd.generics@.len() - i,
    {
        let ghost before = diags@;
        let param = &sd.generics[i];
        if i >= args.len() && param.default.is_none() {
            let v = vec![
                "missing generic argument for `",
                param.name.name.as_str(),
                "` of subdesign `",
                sub.as_str(),
                "` (it has no default)",
            ];
            let m = cat(&v);
            let help = describe_param(param);
            proof {
                assert(v@.map_values(|p: &str| p@) =~= seq![
                    "missing generic argument for `"@,
                    param.name.name@,
                    "` of subdesign `"@,
                    sub_v,
                    "` (it has no default)"@,
                ]);
            }
            diags.push(Diagnostic::error(Code::E401, stmt.ty.span, m).with_help(help));
        }
        proof {
            assert(diags@ + missing_generic_diags(sd.generics@, nargs, stmt.ty.span, sub_v, i + 1)
                =~= before + missing_generic_diags(sd.generics@, nargs, stmt.ty.span, sub_v, i as int));
        }
        i = i + 1;
    }
    // The ports, as a set of names.
    let mut ports: StrMap<()> = StrMap::new();
    let mut k: usize = 0;
    while k < sd.ports.len()
        invariant
            k <= sd.ports@.len(),
            ports@.dom() == sd.ports@.take(k as int).map_values(|p: crate::ast::Port| p.name.name@).to_set(),
        decreases sd.ports@.len() - k,
    {
        ports.insert(sd.ports[k].name.name.clone(), ());
        proof {
            let pn = |p: crate::ast::Port| p.name.name@;
            assert(sd.ports@.take(k + 1).map_values(pn) =~= sd.ports@.take(k as int).map_values(pn).push(
                sd.ports@[k as int].name.name@,
            ));
            let prev = sd.ports@.take(k as int).map_values(pn);
            assert forall|x: Seq<char>| prev.push(sd.ports@[k as int].name.name@).to_set().contains(x)
                <==> prev.to_set().insert(sd.ports@[k as int].name.name@).contains(x) by {
                let q = prev.push(sd.ports@[k as int].name.name@);
                if q.to_set().contains(x) {
                    let j = choose|j: int| 0 <= j < q.len() && q[j] == x;
                    if j < prev.len() {
                        assert(prev.to_set().contains(prev[j]));
                    }
                }
                if prev.to_set().contains(x) {
                    let j = choose|j: int| 0 <= j < prev.len() && prev[j] == x;
                    assert(q[j] == x);
                }
                if x == sd.ports@[k as int].name.name@ {
                    assert(q[prev.len() as int] == x);
                }
            }
            assert(ports@.dom() =~= sd.ports@.take(k + 1).map_values(pn).to_set());
        }
        k = k + 1;
    }
    proof {
        assert(sd.ports@.take(sd.ports@.len() as int) =~= sd.ports@);
    }
    let port_list = ports.keys();
    proof {
        assert(port_list@.map_values(|n: String| n@) =~= ports.key_seq());
        assert(is_sorted_listing(port_list@.map_values(|n: String| n@), ports@.dom()));
        lemma_sorted_listing_unique(
            port_list@.map_values(|n: String| n@),
            sorted_listing(ports@.dom()),
            ports@.dom(),
        );
    }
    let ghost d2 = diags@;
    let mut seen: StrMap<Span> = StrMap::new();
    let mut c: usize = 0;
    while c < stmt.conns.len()
        invariant
            c <= stmt.conns@.len(),
            sub@ == sub_v,
            ports@.dom() == port_names(*sd),
            port_list@.map_values(|n: String| n@) == sorted_listing(ports@.dom()),
            diags@ + conn_diags(stmt.conns@, ports@.dom(), sub_v, stmt.name.name@, seen@, c as int)
                == d2 + conn_diags(stmt.conns@, ports@.dom(), sub_v, stmt.name.name@, Map::empty(), 0),
        decreases stmt.conns@.len() - c,
    {
        let ghost before = diags@;
        let ghost seen0 = seen@;
        let conn = &stmt.conns[c];
        let port = &conn.port.name;
        match seen.get(port) {
            Some(prev) => {
                let prev = *prev;
                let v = vec!["port `", port.as_str(), "` is connected more than once"];
                let m = cat(&v);
                let mut label = String::new();
                push_str(&mut label, "first connected here");
                proof {
                    assert(v@.map_values(|p: &str| p@) =~= seq!["port `"@, port@, "` is connected more than once"@]);
                }
                diags.push(Diagnostic::error(Code::E1301, conn.port.span, m).with_secondary(prev, label));
            },
            None => {
                if !ports.contains_key(port) {
                    let v = vec![
                        "subdesign `",
                        sub.as_str(),
                        "` (use site `",
                        stmt.name.name.as_str(),
                        "`) has no port named `",
                        port.as_str(),
                        "`",
                    ];
                    let m = cat(&v);
                    let joined = join_names(&port_list);
                    let mut help = String::new();
                    push_str(&mut help, "its ports are: ");
                    push_str(&mut help, joined.as_str());
                    proof {
                        assert(v@.map_values(|p: &str| p@) =~= seq![
                            "subdesign `"@,
                            sub_v,
                            "` (use site `"@,
                            stmt.name.name@,
                            "`) has no port named `"@,
                            port@,
                            "`"@,
                        ]);
                    }
                    diags.push(Diagnostic::error(Code::E1301, conn.port.span, m).with_help(help));
                }
            },
        }
        seen.insert(port.clone(), conn.span);
        proof {
            assert(diags@ + conn_diags(stmt.conns@, ports@.dom(), sub_v, stmt.name.name@, seen@, c + 1)
                =~= before + conn_diags(stmt.conns@, ports@.dom(), sub_v, stmt.name.name@, seen0, c as int));
        }
        c = c + 1;
    }
    assert(final(diags)@ =~= old(diags)@ + sub_use_diags(*world, *stmt));
}

// ---------------------------------------------------------------------------
// Laws of references
// ---------------------------------------------------------------------------

/// A pin reference through an instance of a device with a selected
/// variant is accepted exactly when the pin is one of that variant's pins:
/// when the selection names the device's `k`-th variant (and no earlier
/// one), `base.P` reports nothing if and only if the `k`-th variant has a
/// pin named `P`.
pub proof fn law_variant_pin_reference(bases: Map<Seq<char>, Base>, r: PinRef, k: int)
    requires
        bases.contains_key(r.base.name@),
        bases[r.base.name@] is Concrete,
        (bases[r.base.name@]->Concrete_1) is Some,
        0 <= k < (*(bases[r.base.name@]->Concrete_0)).variants@.len(),
        (*(bases[r.base.name@]->Concrete_0)).variants@[k].name@ == (bases[r.base.name@]->Concrete_1)->0@,
        forall|j: int|
            0 <= j < k ==> (#[trigger] (*(bases[r.base.name@]->Concrete_0)).variants@[j]).name@ != (
            bases[r.base.name@]->Concrete_1)->0@,
        r.pin is Some,
    ensures
        pin_ref_diags(bases, r).len() == 0 <==> exists|j: int|
            0 <= j < (*(bases[r.base.name@]->Concrete_0)).variants@[k].pins@.len()
                && (#[trigger] (*(bases[r.base.name@]->Concrete_0)).variants@[k].pins@[j]).name.name@
                == (r.pin->0).name@,
{
    let dev = *(bases[r.base.name@]->Concrete_0);
    let v = (bases[r.base.name@]->Concrete_1)->0@;
    law_selected_variant_pins(dev, v, k);
    let pins = dev.variants@[k].pins@;
    let p = (r.pin->0).name@;
    if exists|j: int| 0 <= j < pins.len() && (#[trigger] pins[j]).name.name@ == p {
        let j = choose|j: int| 0 <= j < pins.len() && (#[trigger] pins[j]).name.name@ == p;
        assert(pin_names(pins)[j] == p);
    }
    if pin_names(pins).contains(p) {
        let j = choose|j: int| 0 <= j < pin_names(pins).len() && pin_names(pins)[j] == p;
        assert(pins[j].name.name@ == p);
    }
}

/// An instance-typed parameter (`impl Trait` or a generic type) takes a
/// whole instance: a bare argument naming a known device or abstract
/// instance reports nothing, and a pin reference reports one E503 at the
/// argument. A `Pin` parameter takes a pin: a bare device instance there
/// reports one E602.
pub proof fn law_call_argument_kinds(bases: Map<Seq<char>, Base>, f: FnDef, arg: PinRef, i: int)
    requires
        0 <= i < f.params@.len(),
    ensures
        !(f.params@[i].ty is Pin) && arg.pin.is_none() && bases.contains_key(arg.base.name@) && (
        bases[arg.base.name@] is Concrete || bases[arg.base.name@] is Abstract) ==> call_arg_diags(
            bases,
            Some(f),
            arg,
            i,
        ) == Seq::<DiagView>::empty(),
        !(f.params@[i].ty is Pin) && arg.pin.is_some() ==> ({
            let d = call_arg_diags(bases, Some(f), arg, i);
            d.len() == 1 && d[0].code == Code::E503 && d[0].span == arg.span
        }),
        f.params@[i].ty is Pin && arg.pin.is_none() && bases.contains_key(arg.base.name@)
            && bases[arg.base.name@] is Concrete ==> ({
            let d = call_arg_diags(bases, Some(f), arg, i);
            d.len() == 1 && d[0].code == Code::E602
        }),
{
}

/// The argument errors from `i` on are those of each argument in turn.
proof fn lemma_args_from_empty(bases: Map<Seq<char>, Base>, f: FnDef, args: Seq<PinRef>, i: int)
    requires
        0 <= i,
        forall|k: int| i <= k < args.len() ==> call_arg_diags(bases, Some(f), #[trigger] args[k], k) == Seq::<DiagView>::empty(),
    ensures
        call_args_diags_from(bases, Some(f), args, i) == Seq::<DiagView>::empty(),
    decreases args.len() - i,
{
    if i < args.len() {
        lemma_args_from_empty(bases, f, args, i + 1);
        assert(call_args_diags_from(bases, Some(f), args, i) =~= call_arg_diags(bases, Some(f), args[i], i)
            + call_args_diags_from(bases, Some(f), args, i + 1));
    }
}

/// A call of a known fn whose parameters all take instances, given as
/// many bare arguments, each naming a known device or abstract instance,
/// reports nothing.
pub proof fn law_instances_passed_whole_are_accepted(world: World, bases: Map<Seq<char>, Base>, call: CallStmt)
    requires
        world.fns@.contains_key(call.callee.name@),
        call.args@.len() == world.fns@[call.callee.name@].params@.len(),
        forall|k: int| 0 <= k < call.args@.len() ==> !((#[trigger] world.fns@[call.callee.name@].params@[k]).ty is Pin),
        forall|k: int|
            0 <= k < call.args@.len() ==> (#[trigger] call.args@[k]).pin.is_none() && bases.contains_key(
                call.args@[k].base.name@,
            ) && (bases[call.args@[k].base.name@] is Concrete || bases[call.args@[k].base.name@] is Abstract),
    ensures
        call_args_diags(world, bases, call) == Seq::<DiagView>::empty(),
{
    let f = world.fns@[call.callee.name@];
    assert forall|k: int| 0 <= k < call.args@.len() implies call_arg_diags(bases, Some(f), #[trigger] call.args@[k], k)
        == Seq::<DiagView>::empty() by {
        assert(!(f.params@[k].ty is Pin));
        law_call_argument_kinds(bases, f, call.args@[k], k);
    }
    lemma_args_from_empty(bases, f, call.args@, 0);
    assert(call_args_diags(world, bases, call) =~= Seq::<DiagView>::empty());
}

} // verus!
