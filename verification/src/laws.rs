//! What holds of every context that construction yields: the symbol
//! table's internal invariants, the stability of once-assigned handles,
//! and the exact meaning of the undefined set.

use vstd::prelude::*;

use crate::context::ContextModel;
use crate::context::TypeInfoModel;
use crate::context::add_ref_model;
use crate::context::add_refs_model;
use crate::context::add_fields_model;
use crate::context::add_type_model;
use crate::context::add_type_def_model;
use crate::context::add_type_defs_model;
use crate::context::add_file_model;
use crate::context::add_files_model;
use crate::context::construct_model;
use crate::context::defined_find;
use crate::context::defined_index;
use crate::context::defined_upsert;
use crate::context::empty_context_model;
use crate::context::grows;
use crate::context::lemma_add_type_grows;
use crate::context::lemma_defined_index_from_props;
use crate::context::lemma_defined_upsert_find;
use crate::context::lemma_named_index_extend;
use crate::context::lemma_named_index_from_props;
use crate::context::lemma_named_upsert_find;
use crate::context::lemma_rewrite_type_resolved;
use crate::context::lemma_without_id_bound;
use crate::context::lemma_without_id_contains;
use crate::context::named_find;
use crate::context::named_index;
use crate::context::named_upsert;
use crate::context::qualify;
use crate::context::resolution_of;
use crate::context::resolution_of_id;
use crate::context::rewrite_fields_model;
use crate::context::rewrite_ref_model;
use crate::context::rewrite_refs_model;
use crate::context::rewrite_type_def_model;
use crate::context::rewrite_type_model;
use crate::context::without_id;
use crate::names::NameModel;
use crate::nodes::FieldModel;
use crate::nodes::FileModel;
use crate::nodes::TypeDefModel;
use crate::nodes::TypeModel;
use crate::nodes::TypeRefModel;
use crate::nodes::type_resolved;

verus! {

/// Whether some entry of the name table carries this handle.
pub open spec fn named_has_id(c: ContextModel, id: nat) -> bool {
    exists|j: int| 0 <= j < c.named.len() && (#[trigger] c.named[j]).1 == id
}

/// Every handle anywhere in the context is below the allocator's next
/// value.
pub open spec fn ids_bounded(c: ContextModel) -> bool {
    &&& (forall|j: int| 0 <= j < c.named.len() ==> (#[trigger] c.named[j]).1 < c.next_id)
    &&& (forall|j: int| 0 <= j < c.defined.len() ==> (#[trigger] c.defined[j]).0 < c.next_id)
    &&& (forall|j: int| 0 <= j < c.undefined.len() ==> #[trigger] c.undefined[j] < c.next_id)
}

/// Each qualified name appears at most once in the name table.
pub open spec fn named_keys_unique(c: ContextModel) -> bool {
    forall|i: int, j: int|
        0 <= i < j < c.named.len() ==> (#[trigger] c.named[i]).0 != (#[trigger] c.named[j]).0
}

/// Each handle is bound to at most one qualified name.
pub open spec fn named_values_unique(c: ContextModel) -> bool {
    forall|i: int, j: int|
        0 <= i < j < c.named.len() ==> (#[trigger] c.named[i]).1 != (#[trigger] c.named[j]).1
}

/// Each handle appears at most once in the definition table.
pub open spec fn defined_keys_unique(c: ContextModel) -> bool {
    forall|i: int, j: int|
        0 <= i < j < c.defined.len() ==> (#[trigger] c.defined[i]).0 != (#[trigger] c.defined[j]).0
}

/// Every undefined handle was referenced by name and has no definition.
pub open spec fn undefined_sound(c: ContextModel) -> bool {
    forall|j: int|
        0 <= j < c.undefined.len() ==> named_has_id(c, #[trigger] c.undefined[j]) && defined_index(
            c.defined,
            c.undefined[j],
        ) == -1
}

/// Every referenced handle without a definition is recorded as undefined,
/// except those in `s` (the handle a definition pass is working on).
pub open spec fn undefined_complete_except(c: ContextModel, s: Set<nat>) -> bool {
    forall|j: int|
        0 <= j < c.named.len() ==> ((defined_index(c.defined, (#[trigger] c.named[j]).1) == -1
            && !c.undefined.contains(c.named[j].1)) ==> s.contains(c.named[j].1))
}

/// Every defined handle is also bound to a name.
pub open spec fn defined_in_named(c: ContextModel) -> bool {
    forall|j: int| 0 <= j < c.defined.len() ==> named_has_id(c, (#[trigger] c.defined[j]).0)
}

/// Every stored declaration is fully id-based.
pub open spec fn defs_resolved(c: ContextModel) -> bool {
    forall|j: int| 0 <= j < c.defined.len() ==> type_resolved((#[trigger] c.defined[j]).1.def.shape)
}

/// Every stored entry's canonical name maps back to its own handle.
pub open spec fn defined_names_canonical(c: ContextModel) -> bool {
    forall|j: int|
        0 <= j < c.defined.len() ==> named_find(c.named, (#[trigger] c.defined[j]).1.name) == Some(
            c.defined[j].0,
        )
}

/// All of the context's invariants, with the undefined set allowed to
/// omit the handles in `s`.
pub open spec fn inv_except(c: ContextModel, s: Set<nat>) -> bool {
    &&& ids_bounded(c)
    &&& named_keys_unique(c)
    &&& named_values_unique(c)
    &&& defined_keys_unique(c)
    &&& undefined_sound(c)
    &&& undefined_complete_except(c, s)
    &&& defined_in_named(c)
    &&& defs_resolved(c)
    &&& defined_names_canonical(c)
}

/// A well-formed context: in particular, a handle is undefined exactly
/// when it was referenced and never given a definition.
pub open spec fn context_wf(c: ContextModel) -> bool {
    inv_except(c, Set::<nat>::empty())
}

/// The invariants survive recording one missing name with a fresh handle.
proof fn lemma_push_fresh_entry_inv(c: ContextModel, key: Seq<NameModel>, s: Set<nat>)
    requires
        inv_except(c, s),
        named_find(c.named, key) is None,
    ensures
        inv_except(
            ContextModel {
                defined: c.defined,
                named: c.named.push((key, c.next_id)),
                undefined: c.undefined.push(c.next_id),
                next_id: c.next_id + 1,
            },
            s,
        ),
{
    let d = ContextModel {
        defined: c.defined,
        named: c.named.push((key, c.next_id)),
        undefined: c.undefined.push(c.next_id),
        next_id: c.next_id + 1,
    };
    lemma_named_index_from_props(c.named, key, 0);
    assert(forall|j: int| 0 <= j < c.named.len() ==> #[trigger] d.named[j] == c.named[j]);
    assert(forall|j: int| 0 <= j < c.undefined.len() ==> #[trigger] d.undefined[j]
        == c.undefined[j]);
    assert(d.named[c.named.len() as int] == (key, c.next_id));
    assert(d.undefined[c.undefined.len() as int] == c.next_id);
    assert(named_keys_unique(d)) by {
        assert forall|i: int, j: int| 0 <= i < j < d.named.len() implies (#[trigger] d.named[i]).0
            != (#[trigger] d.named[j]).0 by {
            if j == c.named.len() {
                assert(d.named[i] == c.named[i]);
                assert(c.named[i].0 != key);
            }
        }
    }
    assert(named_values_unique(d)) by {
        assert forall|i: int, j: int| 0 <= i < j < d.named.len() implies (#[trigger] d.named[i]).1
            != (#[trigger] d.named[j]).1 by {
            if j == c.named.len() {
                assert(d.named[i] == c.named[i]);
                assert(c.named[i].1 < c.next_id);
            }
        }
    }
    assert(undefined_sound(d)) by {
        assert forall|j: int| 0 <= j < d.undefined.len() implies named_has_id(
            d,
            #[trigger] d.undefined[j],
        ) && defined_index(d.defined, d.undefined[j]) == -1 by {
            if j < c.undefined.len() {
                assert(d.undefined[j] == c.undefined[j]);
                assert(named_has_id(c, c.undefined[j]));
                let w = choose|w: int|
                    0 <= w < c.named.len() && (#[trigger] c.named[w]).1 == c.undefined[j];
                assert(d.named[w] == c.named[w]);
                assert(named_has_id(d, d.undefined[j]));
            } else {
                assert(d.undefined[j] == c.next_id);
                assert((d.named[c.named.len() as int]).1 == c.next_id);
                assert(named_has_id(d, c.next_id));
                lemma_defined_index_from_props(c.defined, c.next_id, 0);
                assert(defined_index(c.defined, c.next_id) == -1);
            }
        }
    }
    assert(undefined_complete_except(d, s)) by {
        assert forall|j: int|
            0 <= j < d.named.len() && (defined_index(d.defined, (#[trigger] d.named[j]).1) == -1
                && !d.undefined.contains(d.named[j].1)) implies s.contains(d.named[j].1) by {
            if j < c.named.len() {
                assert(d.named[j] == c.named[j]);
                if c.undefined.contains(c.named[j].1) {
                    let w = choose|w: int|
                        0 <= w < c.undefined.len() && #[trigger] c.undefined[w] == c.named[j].1;
                    assert(d.undefined[w] == c.named[j].1);
                    assert(d.undefined.contains(d.named[j].1));
                }
            } else {
                assert(d.undefined[c.undefined.len() as int] == d.named[j].1);
                assert(d.undefined.contains(d.named[j].1));
            }
        }
    }
    assert(defined_in_named(d)) by {
        assert forall|j: int| 0 <= j < d.defined.len() implies named_has_id(
            d,
            (#[trigger] d.defined[j]).0,
        ) by {
            let w = choose|w: int|
                0 <= w < c.named.len() && (#[trigger] c.named[w]).1 == c.defined[j].0;
            assert(d.named[w] == c.named[w]);
        }
    }
    assert(defined_names_canonical(d)) by {
        assert forall|j: int| 0 <= j < d.defined.len() implies named_find(
            d.named,
            (#[trigger] d.defined[j]).1.name,
        ) == Some(d.defined[j].0) by {
            lemma_named_index_from_props(c.named, c.defined[j].1.name, 0);
            lemma_named_index_extend(c.named, d.named, c.defined[j].1.name, 0);
        }
    }
}

/// The invariants survive the reference pass.
pub proof fn lemma_add_ref_inv(c: ContextModel, ns: Seq<NameModel>, r: TypeRefModel, s: Set<nat>)
    requires
        inv_except(c, s),
    ensures
        inv_except(add_ref_model(c, ns, r), s),
    decreases r,
{
    match r {
        TypeRefModel::ByName { name, params } => {
            let key = qualify(ns, name);
            let c1 = if named_find(c.named, key) is Some {
                c
            } else {
                ContextModel {
                    defined: c.defined,
                    named: c.named.push((key, c.next_id)),
                    undefined: c.undefined.push(c.next_id),
                    next_id: c.next_id + 1,
                }
            };
            if named_find(c.named, key) is None {
                lemma_push_fresh_entry_inv(c, key, s);
            }
            lemma_add_refs_inv(c1, ns, params, s);
        },
        TypeRefModel::ById { id, params } => {
            lemma_add_refs_inv(c, ns, params, s);
        },
    }
}

pub proof fn lemma_add_refs_inv(
    c: ContextModel,
    ns: Seq<NameModel>,
    params: Seq<TypeRefModel>,
    s: Set<nat>,
)
    requires
        inv_except(c, s),
    ensures
        inv_except(add_refs_model(c, ns, params), s),
    decreases params,
{
    if params.len() > 0 {
        lemma_add_ref_inv(c, ns, params[0], s);
        lemma_add_refs_inv(add_ref_model(c, ns, params[0]), ns, params.drop_first(), s);
    }
}

pub proof fn lemma_add_fields_inv(
    c: ContextModel,
    ns: Seq<NameModel>,
    fields: Seq<FieldModel>,
    s: Set<nat>,
)
    requires
        inv_except(c, s),
    ensures
        inv_except(add_fields_model(c, ns, fields), s),
    decreases fields,
{
    if fields.len() > 0 {
        lemma_add_ref_inv(c, ns, fields[0].type_ref, s);
        lemma_add_fields_inv(add_ref_model(c, ns, fields[0].type_ref), ns, fields.drop_first(), s);
    }
}

pub proof fn lemma_add_type_inv(c: ContextModel, ns: Seq<NameModel>, t: TypeModel, s: Set<nat>)
    requires
        inv_except(c, s),
    ensures
        inv_except(add_type_model(c, ns, t), s),
    decreases t,
{
    match t {
        TypeModel::Primitive(p) => {},
        TypeModel::Struct(fields) => {
            lemma_add_fields_inv(c, ns, fields, s);
        },
        TypeModel::Enum(fields) => {
            lemma_add_fields_inv(c, ns, fields, s);
        },
        TypeModel::List(inner) => {
            lemma_add_type_inv(c, ns, *inner, s);
        },
    }
}

/// The invariants survive one whole definition pass: afterwards the
/// declared handle is defined, so it may leave the except set.
pub proof fn lemma_add_type_def_inv(
    c: ContextModel,
    ns: Seq<NameModel>,
    td: TypeDefModel,
    s: Set<nat>,
)
    requires
        inv_except(c, s),
    ensures
        inv_except(add_type_def_model(c, ns, td), s),
{
    let key = ns.push(td.name);
    let found = named_find(c.named, key);
    let id: nat = match found {
        Some(i) => i,
        None => c.next_id,
    };
    let c1 = ContextModel {
        defined: c.defined,
        named: named_upsert(c.named, key, id),
        undefined: without_id(c.undefined, id),
        next_id: if found is Some {
            c.next_id
        } else {
            c.next_id + 1
        },
    };
    let c2 = add_type_model(c1, ns, td.shape);
    let info = TypeInfoModel { name: key, def: rewrite_type_def_model(c2, ns, td) };
    let d = ContextModel {
        defined: defined_upsert(c2.defined, id, info),
        named: c2.named,
        undefined: c2.undefined,
        next_id: c2.next_id,
    };
    let s1 = s.insert(id);

    lemma_named_index_from_props(c.named, key, 0);

    // Step 1: the intermediate context keeps the invariants, with the
    // declared handle excepted.
    if found is Some {
        let idx = named_index(c.named, key);
        assert(c.named[idx] == (c.named[idx].0, c.named[idx].1));
        assert(c.named[idx] == (key, id));
        assert(c1.named =~= c.named);
    } else {
        assert(c1.named =~= c.named.push((key, id)));
    }
    assert(id < c1.next_id) by {
        if found is Some {
            let idx = named_index(c.named, key);
            assert(c.named[idx].1 < c.next_id);
        }
    }
    lemma_without_id_bound(c.undefined, id, c.next_id);
    assert(inv_except(c1, s1)) by {
        assert(ids_bounded(c1)) by {
            if found is None {
                assert forall|j: int| 0 <= j < c1.named.len() implies (#[trigger] c1.named[j]).1
                    < c1.next_id by {
                    if j < c.named.len() {
                        assert(c1.named[j] == c.named[j]);
                    }
                }
            }
        }
        assert(named_keys_unique(c1)) by {
            if found is None {
                assert forall|i: int, j: int| 0 <= i < j < c1.named.len() implies (
                #[trigger] c1.named[i]).0 != (#[trigger] c1.named[j]).0 by {
                    if j == c.named.len() {
                        assert(c1.named[i] == c.named[i]);
                        assert(c.named[i].0 != key);
                    }
                }
            }
        }
        assert(named_values_unique(c1)) by {
            if found is None {
                assert forall|i: int, j: int| 0 <= i < j < c1.named.len() implies (
                #[trigger] c1.named[i]).1 != (#[trigger] c1.named[j]).1 by {
                    if j == c.named.len() {
                        assert(c1.named[i] == c.named[i]);
                        assert(c.named[i].1 < c.next_id);
                    }
                }
            }
        }
        assert(undefined_sound(c1)) by {
            assert forall|j: int| 0 <= j < c1.undefined.len() implies named_has_id(
                c1,
                #[trigger] c1.undefined[j],
            ) && defined_index(c1.defined, c1.undefined[j]) == -1 by {
                lemma_without_id_contains(c.undefined, id, c1.undefined[j]);
                assert(c1.undefined.contains(c1.undefined[j]));
                assert(c.undefined.contains(c1.undefined[j]));
                let w = choose|w: int|
                    0 <= w < c.undefined.len() && #[trigger] c.undefined[w] == c1.undefined[j];
                assert(named_has_id(c, c.undefined[w]));
                let v = choose|v: int|
                    0 <= v < c.named.len() && (#[trigger] c.named[v]).1 == c.undefined[w];
                assert(c1.named[v].1 == c1.undefined[j]);
            }
        }
        assert(undefined_complete_except(c1, s1)) by {
            assert forall|j: int|
                0 <= j < c1.named.len() && (defined_index(
                    c1.defined,
                    (#[trigger] c1.named[j]).1,
                ) == -1 && !c1.undefined.contains(c1.named[j].1)) implies s1.contains(
                c1.named[j].1,
            ) by {
                let v = c1.named[j].1;
                lemma_without_id_contains(c.undefined, id, v);
                if v != id {
                    assert(j < c.named.len() && c1.named[j] == c.named[j]) by {
                        if found is None && j == c.named.len() {
                            assert(c1.named[j].1 == id);
                        }
                    }
                    assert(!c.undefined.contains(v));
                    assert(s.contains(v));
                }
            }
        }
        assert(defined_in_named(c1)) by {
            assert forall|j: int| 0 <= j < c1.defined.len() implies named_has_id(
                c1,
                (#[trigger] c1.defined[j]).0,
            ) by {
                let w = choose|w: int|
                    0 <= w < c.named.len() && (#[trigger] c.named[w]).1 == c.defined[j].0;
                assert(c1.named[w].1 == c.defined[j].0);
            }
        }
        assert(defined_names_canonical(c1)) by {
            assert forall|j: int| 0 <= j < c1.defined.len() implies named_find(
                c1.named,
                (#[trigger] c1.defined[j]).1.name,
            ) == Some(c1.defined[j].0) by {
                lemma_named_upsert_find(c.named, key, id, c1.defined[j].1.name);
                if c1.defined[j].1.name == key {
                    assert(named_find(c.named, key) == Some(c1.defined[j].0));
                }
            }
        }
    }

    // Step 2: the reference pass keeps them.
    lemma_add_type_inv(c1, ns, td.shape, s1);
    lemma_add_type_grows(c1, ns, td.shape);

    // The declared handle never reappears as undefined meanwhile.
    assert(!c2.undefined.contains(id)) by {
        lemma_without_id_contains(c.undefined, id, id);
        if c2.undefined.contains(id) {
            let w = choose|w: int| 0 <= w < c2.undefined.len() && #[trigger] c2.undefined[w] == id;
            if w < c1.undefined.len() {
                assert(c2.undefined[w] == c1.undefined[w]);
                assert(c1.undefined.contains(c1.undefined[w]));
            } else {
                assert(c2.undefined[w] >= c1.next_id);
            }
        }
    }
    // The key still maps to the declared handle.
    lemma_named_upsert_find(c.named, key, id, key);
    assert(named_find(c1.named, key) == Some(id));
    lemma_named_index_from_props(c1.named, key, 0);
    lemma_named_index_extend(c1.named, c2.named, key, 0);
    assert(named_find(c2.named, key) == Some(id));

    // Step 3: storing the rewritten declaration restores completeness.
    assert(inv_except(d, s)) by {
        assert(ids_bounded(d)) by {
            assert forall|j: int| 0 <= j < d.defined.len() implies (#[trigger] d.defined[j]).0
                < d.next_id by {
                let di = defined_index(c2.defined, id);
                lemma_defined_index_from_props(c2.defined, id, 0);
                if di >= 0 {
                    if j != di {
                        assert(d.defined[j] == c2.defined[j]);
                    }
                } else {
                    if j < c2.defined.len() {
                        assert(d.defined[j] == c2.defined[j]);
                    }
                }
            }
        }
        assert(defined_keys_unique(d)) by {
            let di = defined_index(c2.defined, id);
            lemma_defined_index_from_props(c2.defined, id, 0);
            assert forall|i: int, j: int| 0 <= i < j < d.defined.len() implies (
            #[trigger] d.defined[i]).0 != (#[trigger] d.defined[j]).0 by {
                if di >= 0 {
                    assert(forall|w: int| 0 <= w < c2.defined.len() && w != di
                        ==> #[trigger] d.defined[w] == c2.defined[w]);
                    assert(d.defined[di].0 == c2.defined[di].0);
                } else {
                    assert(forall|w: int| 0 <= w < c2.defined.len() ==> #[trigger] d.defined[w]
                        == c2.defined[w]);
                    if j == c2.defined.len() {
                        assert(d.defined[j].0 == id);
                    }
                }
            }
        }
        assert(undefined_sound(d)) by {
            assert forall|j: int| 0 <= j < d.undefined.len() implies named_has_id(
                d,
                #[trigger] d.undefined[j],
            ) && defined_index(d.defined, d.undefined[j]) == -1 by {
                assert(named_has_id(c2, c2.undefined[j]));
                assert(c2.undefined.contains(c2.undefined[j]));
                assert(c2.undefined[j] != id);
                lemma_defined_upsert_find(c2.defined, id, info, c2.undefined[j]);
                lemma_defined_index_from_props(c2.defined, c2.undefined[j], 0);
                lemma_defined_index_from_props(d.defined, c2.undefined[j], 0);
            }
        }
        assert(undefined_complete_except(d, s)) by {
            assert forall|j: int|
                0 <= j < d.named.len() && (defined_index(d.defined, (#[trigger] d.named[j]).1)
                    == -1 && !d.undefined.contains(d.named[j].1)) implies s.contains(
                d.named[j].1,
            ) by {
                let v = d.named[j].1;
                lemma_defined_upsert_find(c2.defined, id, info, v);
                lemma_defined_index_from_props(d.defined, v, 0);
                lemma_defined_index_from_props(c2.defined, v, 0);
                if v == id {
                    assert(defined_find(d.defined, v) == Some(info));
                    assert(defined_index(d.defined, v) >= 0);
                } else {
                    assert(defined_find(d.defined, v) == defined_find(c2.defined, v));
                    assert(defined_index(c2.defined, v) == -1);
                    assert(s1.contains(v));
                }
            }
        }
        assert(defined_in_named(d)) by {
            lemma_defined_index_from_props(c2.defined, id, 0);
            lemma_named_index_from_props(c2.named, key, 0);
            let kidx = named_index(c2.named, key);
            assert(c2.named[kidx].1 == id);
            assert(named_has_id(c2, id));
            assert forall|j: int| 0 <= j < d.defined.len() implies named_has_id(
                d,
                (#[trigger] d.defined[j]).0,
            ) by {
                let di = defined_index(c2.defined, id);
                if di >= 0 && j == di {
                    assert(d.defined[j].0 == id);
                } else if j < c2.defined.len() {
                    assert(d.defined[j] == c2.defined[j]);
                } else {
                    assert(d.defined[j].0 == id);
                }
            }
        }
        assert(defs_resolved(d)) by {
            lemma_rewrite_type_resolved(c2, ns, td.shape);
            assert(type_resolved(info.def.shape));
            assert forall|j: int| 0 <= j < d.defined.len() implies type_resolved(
                (#[trigger] d.defined[j]).1.def.shape,
            ) by {
                let di = defined_index(c2.defined, id);
                lemma_defined_index_from_props(c2.defined, id, 0);
                if di >= 0 && j == di {
                    assert(d.defined[j].1 == info);
                } else if j < c2.defined.len() {
                    assert(d.defined[j] == c2.defined[j]);
                } else {
                    assert(d.defined[j].1 == info);
                }
            }
        }
        assert(defined_names_canonical(d)) by {
            assert forall|j: int| 0 <= j < d.defined.len() implies named_find(
                d.named,
                (#[trigger] d.defined[j]).1.name,
            ) == Some(d.defined[j].0) by {
                let di = defined_index(c2.defined, id);
                lemma_defined_index_from_props(c2.defined, id, 0);
                if di >= 0 && j == di {
                    assert(d.defined[j] == (id, info));
                } else if j < c2.defined.len() {
                    assert(d.defined[j] == c2.defined[j]);
                } else {
                    assert(d.defined[j] == (id, info));
                }
            }
        }
    }
    assert(add_type_def_model(c, ns, td) == d);
}

/// The invariants survive a file's declarations, in order.
pub proof fn lemma_add_type_defs_inv(
    c: ContextModel,
    ns: Seq<NameModel>,
    tds: Seq<TypeDefModel>,
    s: Set<nat>,
)
    requires
        inv_except(c, s),
    ensures
        inv_except(add_type_defs_model(c, ns, tds), s),
    decreases tds,
{
    if tds.len() > 0 {
        lemma_add_type_def_inv(c, ns, tds[0], s);
        lemma_add_type_defs_inv(add_type_def_model(c, ns, tds[0]), ns, tds.drop_first(), s);
    }
}

/// The invariants survive whole files.
pub proof fn lemma_add_files_inv(c: ContextModel, files: Seq<FileModel>, s: Set<nat>)
    requires
        inv_except(c, s),
    ensures
        inv_except(add_files_model(c, files), s),
    decreases files,
{
    if files.len() > 0 {
        lemma_add_type_defs_inv(c, files[0].namespace, files[0].types, s);
        lemma_add_files_inv(add_file_model(c, files[0]), files.drop_first(), s);
    }
}

/// Construction from any declaration tree yields a well-formed context.
pub proof fn lemma_construct_wf(files: Seq<FileModel>)
    ensures
        context_wf(construct_model(files)),
{
    let c0 = empty_context_model();
    assert(inv_except(c0, Set::<nat>::empty()));
    lemma_add_files_inv(c0, files, Set::<nat>::empty());
}

/// How any construction step relates a context to a later one: bound
/// names keep their handles, defined handles stay defined, and the
/// allocator never goes back.
pub open spec fn context_extends(c: ContextModel, d: ContextModel) -> bool {
    &&& c.next_id <= d.next_id
    &&& (forall|k: Seq<NameModel>|
        (#[trigger] named_find(c.named, k)) is Some ==> named_find(d.named, k) == named_find(
            c.named,
            k,
        ))
    &&& (forall|id: nat|
        (#[trigger] defined_find(c.defined, id)) is Some ==> defined_find(d.defined, id) is Some)
}

pub proof fn lemma_extends_refl(c: ContextModel)
    ensures
        context_extends(c, c),
{
}

pub proof fn lemma_extends_trans(c: ContextModel, d: ContextModel, e: ContextModel)
    requires
        context_extends(c, d),
        context_extends(d, e),
    ensures
        context_extends(c, e),
{
}

/// Growth during the reference pass is an extension.
pub proof fn lemma_grows_extends(c: ContextModel, d: ContextModel)
    requires
        grows(c, d),
    ensures
        context_extends(c, d),
{
    assert forall|k: Seq<NameModel>| (#[trigger] named_find(c.named, k)) is Some implies named_find(
        d.named,
        k,
    ) == named_find(c.named, k) by {
        lemma_named_index_from_props(c.named, k, 0);
        lemma_named_index_extend(c.named, d.named, k, 0);
    }
}

/// One definition pass is an extension.
pub proof fn lemma_add_type_def_extends(c: ContextModel, ns: Seq<NameModel>, td: TypeDefModel)
    ensures
        context_extends(c, add_type_def_model(c, ns, td)),
{
    let key = ns.push(td.name);
    let found = named_find(c.named, key);
    let id: nat = match found {
        Some(i) => i,
        None => c.next_id,
    };
    let c1 = ContextModel {
        defined: c.defined,
        named: named_upsert(c.named, key, id),
        undefined: without_id(c.undefined, id),
        next_id: if found is Some {
            c.next_id
        } else {
            c.next_id + 1
        },
    };
    let c2 = add_type_model(c1, ns, td.shape);
    let info = TypeInfoModel { name: key, def: rewrite_type_def_model(c2, ns, td) };
    let d = add_type_def_model(c, ns, td);
    assert(context_extends(c, c1)) by {
        assert forall|k: Seq<NameModel>| (#[trigger] named_find(c.named, k)) is Some implies
            named_find(c1.named, k) == named_find(c.named, k) by {
            lemma_named_upsert_find(c.named, key, id, k);
        }
    }
    lemma_add_type_grows(c1, ns, td.shape);
    lemma_grows_extends(c1, c2);
    assert(context_extends(c2, d)) by {
        assert forall|id2: nat| (#[trigger] defined_find(c2.defined, id2)) is Some implies
            defined_find(d.defined, id2) is Some by {
            lemma_defined_upsert_find(c2.defined, id, info, id2);
        }
    }
    lemma_extends_trans(c, c1, c2);
    lemma_extends_trans(c, c2, d);
}

pub proof fn lemma_add_type_defs_extends(
    c: ContextModel,
    ns: Seq<NameModel>,
    tds: Seq<TypeDefModel>,
)
    ensures
        context_extends(c, add_type_defs_model(c, ns, tds)),
    decreases tds,
{
    if tds.len() == 0 {
        lemma_extends_refl(c);
    } else {
        let c1 = add_type_def_model(c, ns, tds[0]);
        lemma_add_type_def_extends(c, ns, tds[0]);
        lemma_add_type_defs_extends(c1, ns, tds.drop_first());
        lemma_extends_trans(c, c1, add_type_defs_model(c1, ns, tds.drop_first()));
    }
}

pub proof fn lemma_add_files_extends(c: ContextModel, files: Seq<FileModel>)
    ensures
        context_extends(c, add_files_model(c, files)),
    decreases files,
{
    if files.len() == 0 {
        lemma_extends_refl(c);
    } else {
        let c1 = add_file_model(c, files[0]);
        lemma_add_type_defs_extends(c, files[0].namespace, files[0].types);
        lemma_add_files_extends(c1, files.drop_first());
        lemma_extends_trans(c, c1, add_files_model(c1, files.drop_first()));
    }
}

/// Forward-reference stability: a name bound to a handle keeps exactly
/// that handle through all later declarations and files, so a reference
/// made before a definition and one made after it meet in the same handle.
pub proof fn lemma_reference_id_stable(
    c: ContextModel,
    files: Seq<FileModel>,
    key: Seq<NameModel>,
)
    requires
        named_find(c.named, key) is Some,
    ensures
        named_find(add_files_model(c, files).named, key) == named_find(c.named, key),
{
    lemma_add_files_extends(c, files);
}

/// After one definition pass, the declared canonical name is bound and
/// its handle has a stored definition.
proof fn lemma_type_def_defines(c: ContextModel, ns: Seq<NameModel>, td: TypeDefModel)
    ensures
        ({
            let d = add_type_def_model(c, ns, td);
            let key = ns.push(td.name);
            &&& named_find(d.named, key) is Some
            &&& defined_find(d.defined, named_find(d.named, key)->0) is Some
        }),
{
    let key = ns.push(td.name);
    let found = named_find(c.named, key);
    let id: nat = match found {
        Some(i) => i,
        None => c.next_id,
    };
    let c1 = ContextModel {
        defined: c.defined,
        named: named_upsert(c.named, key, id),
        undefined: without_id(c.undefined, id),
        next_id: if found is Some {
            c.next_id
        } else {
            c.next_id + 1
        },
    };
    let c2 = add_type_model(c1, ns, td.shape);
    let info = TypeInfoModel { name: key, def: rewrite_type_def_model(c2, ns, td) };
    let d = add_type_def_model(c, ns, td);
    lemma_named_upsert_find(c.named, key, id, key);
    assert(named_find(c1.named, key) == Some(id));
    lemma_add_type_grows(c1, ns, td.shape);
    lemma_grows_extends(c1, c2);
    assert(named_find(c2.named, key) == Some(id));
    lemma_defined_upsert_find(c2.defined, id, info, id);
    assert(defined_find(d.defined, id) == Some(info));
}

/// A declaration's handle has a definition after its file's declarations
/// have all been folded in.
proof fn lemma_defined_after_type_defs(
    c: ContextModel,
    ns: Seq<NameModel>,
    tds: Seq<TypeDefModel>,
    j: int,
)
    requires
        0 <= j < tds.len(),
    ensures
        ({
            let d = add_type_defs_model(c, ns, tds);
            let key = ns.push(tds[j].name);
            &&& named_find(d.named, key) is Some
            &&& defined_find(d.defined, named_find(d.named, key)->0) is Some
        }),
    decreases tds,
{
    let c1 = add_type_def_model(c, ns, tds[0]);
    let d = add_type_defs_model(c, ns, tds);
    if j == 0 {
        lemma_type_def_defines(c, ns, tds[0]);
        lemma_add_type_defs_extends(c1, ns, tds.drop_first());
        let key = ns.push(tds[0].name);
        assert(named_find(d.named, key) == named_find(c1.named, key));
    } else {
        lemma_defined_after_type_defs(c1, ns, tds.drop_first(), j - 1);
        assert(tds.drop_first()[j - 1] == tds[j]);
    }
}

/// A declaration's handle has a definition after all files are folded in.
proof fn lemma_defined_after_files(c: ContextModel, files: Seq<FileModel>, i: int, j: int)
    requires
        0 <= i < files.len(),
        0 <= j < files[i].types.len(),
    ensures
        ({
            let d = add_files_model(c, files);
            let key = files[i].namespace.push(files[i].types[j].name);
            &&& named_find(d.named, key) is Some
            &&& defined_find(d.defined, named_find(d.named, key)->0) is Some
        }),
    decreases files,
{
    let c1 = add_file_model(c, files[0]);
    let d = add_files_model(c, files);
    if i == 0 {
        lemma_defined_after_type_defs(c, files[0].namespace, files[0].types, j);
        lemma_add_files_extends(c1, files.drop_first());
        let key = files[0].namespace.push(files[0].types[j].name);
        assert(named_find(d.named, key) == named_find(c1.named, key));
    } else {
        lemma_defined_after_files(c1, files.drop_first(), i - 1, j);
        assert(files.drop_first()[i - 1] == files[i]);
    }
}

/// Every declared type resolves, by its single-token local name under its
/// namespace, to the handle its definition is stored under: the handle is
/// present, carries a definition, and that definition's canonical name is
/// the declaration's own.
pub proof fn lemma_declared_name_resolves(files: Seq<FileModel>, i: int, j: int)
    requires
        0 <= i < files.len(),
        0 <= j < files[i].types.len(),
    ensures
        ({
            let c = construct_model(files);
            let ns = files[i].namespace;
            let td = files[i].types[j];
            let key = ns.push(td.name);
            let r = resolution_of(c, ns, seq![td.name]);
            &&& r.id is Some
            &&& r.def is Some
            &&& resolution_of_id(c, r.id->0) is Some
            &&& (resolution_of_id(c, r.id->0)->0).name == key
        }),
{
    lemma_defined_after_files(empty_context_model(), files, i, j);
    lemma_construct_wf(files);
    let c = construct_model(files);
    let ns = files[i].namespace;
    let td = files[i].types[j];
    let key = ns.push(td.name);
    assert(qualify(ns, seq![td.name]) =~= key);
    let id = named_find(c.named, key)->0;
    let info = defined_find(c.defined, id)->0;
    lemma_defined_index_from_props(c.defined, id, 0);
    let di = defined_index(c.defined, id);
    assert(c.defined[di] == (c.defined[di].0, c.defined[di].1));
    assert(c.defined[di].1 == info);
    assert(named_find(c.named, info.name) == Some(id));
    lemma_named_index_from_props(c.named, key, 0);
    lemma_named_index_from_props(c.named, info.name, 0);
    let i1 = named_index(c.named, key);
    let i2 = named_index(c.named, info.name);
    assert(c.named[i1].1 == id);
    assert(c.named[i2].1 == id);
    assert(i1 == i2);
    assert(info.name == key);
}

/// Resolving the same namespace and name twice yields identical results:
/// the contract pins one answer per context, namespace and name.
pub proof fn lemma_resolution_idempotent(
    c: ContextModel,
    ns: Seq<NameModel>,
    q: Seq<NameModel>,
    first: crate::context::ResolutionModel,
    second: crate::context::ResolutionModel,
)
    requires
        first == resolution_of(c, ns, q),
        second == resolution_of(c, ns, q),
    ensures
        first == second,
{
}

/// The undefined set is exactly the set of referenced handles that lack
/// a definition.
pub proof fn lemma_undefined_ids_exact(files: Seq<FileModel>, id: nat)
    ensures
        ({
            let c = construct_model(files);
            c.undefined.contains(id) <==> (named_has_id(c, id) && defined_find(
                c.defined,
                id,
            ) is None)
        }),
{
    lemma_construct_wf(files);
    let c = construct_model(files);
    lemma_defined_index_from_props(c.defined, id, 0);
    if c.undefined.contains(id) {
        let w = choose|w: int| 0 <= w < c.undefined.len() && c.undefined[w] == id;
        assert(named_has_id(c, c.undefined[w]));
        assert(defined_index(c.defined, c.undefined[w]) == -1);
    }
    if named_has_id(c, id) && defined_find(c.defined, id) is None {
        let w = choose|w: int| 0 <= w < c.named.len() && (#[trigger] c.named[w]).1 == id;
        if !c.undefined.contains(id) {
            assert(Set::<nat>::empty().contains(id));
        }
    }
}

/// Defining a name removes its handle from the undefined set: after the
/// definition pass the name is bound, its handle has a definition, and
/// the handle no longer appears among the undefined.
pub proof fn lemma_definition_clears_undefined(
    c: ContextModel,
    ns: Seq<NameModel>,
    td: TypeDefModel,
)
    requires
        context_wf(c),
    ensures
        ({
            let d = add_type_def_model(c, ns, td);
            let key = ns.push(td.name);
            &&& named_find(d.named, key) is Some
            &&& defined_find(d.defined, named_find(d.named, key)->0) is Some
            &&& !d.undefined.contains(named_find(d.named, key)->0)
        }),
{
    lemma_type_def_defines(c, ns, td);
    let key = ns.push(td.name);
    let found = named_find(c.named, key);
    let id: nat = match found {
        Some(i) => i,
        None => c.next_id,
    };
    let c1 = ContextModel {
        defined: c.defined,
        named: named_upsert(c.named, key, id),
        undefined: without_id(c.undefined, id),
        next_id: if found is Some {
            c.next_id
        } else {
            c.next_id + 1
        },
    };
    let c2 = add_type_model(c1, ns, td.shape);
    let d = add_type_def_model(c, ns, td);
    lemma_named_upsert_find(c.named, key, id, key);
    lemma_add_type_grows(c1, ns, td.shape);
    lemma_grows_extends(c1, c2);
    assert(named_find(d.named, key) == Some(id));
    assert(id < c1.next_id) by {
        if found is Some {
            lemma_named_index_from_props(c.named, key, 0);
            let idx = named_index(c.named, key);
            assert(c.named[idx].1 < c.next_id);
        }
    }
    assert(!c2.undefined.contains(id)) by {
        lemma_without_id_contains(c.undefined, id, id);
        if c2.undefined.contains(id) {
            let w = choose|w: int| 0 <= w < c2.undefined.len() && #[trigger] c2.undefined[w] == id;
            if w < c1.undefined.len() {
                assert(c2.undefined[w] == c1.undefined[w]);
                assert(c1.undefined.contains(c1.undefined[w]));
            } else {
                assert(c2.undefined[w] >= c1.next_id);
            }
        }
    }
    assert(d.undefined == c2.undefined);
}

/// The rewritten form of a field list, at one index.
proof fn lemma_rewrite_fields_index(
    c: ContextModel,
    ns: Seq<NameModel>,
    fs: Seq<FieldModel>,
    k: int,
)
    requires
        0 <= k < fs.len(),
    ensures
        rewrite_fields_model(c, ns, fs).len() == fs.len(),
        rewrite_fields_model(c, ns, fs)[k] == (FieldModel {
            name: fs[k].name,
            type_ref: rewrite_ref_model(c, ns, fs[k].type_ref),
        }),
    decreases fs,
{
    lemma_rewrite_fields_len(c, ns, fs);
    if k == fs.len() - 1 {
        lemma_rewrite_fields_len(c, ns, fs.drop_last());
    } else {
        lemma_rewrite_fields_index(c, ns, fs.drop_last(), k);
        assert(fs.drop_last()[k] == fs[k]);
    }
}

proof fn lemma_rewrite_fields_len(c: ContextModel, ns: Seq<NameModel>, fs: Seq<FieldModel>)
    ensures
        rewrite_fields_model(c, ns, fs).len() == fs.len(),
    decreases fs,
{
    if fs.len() > 0 {
        lemma_rewrite_fields_len(c, ns, fs.drop_last());
    }
}

/// A struct field that references its own declaration resolves: the
/// stored definition's field points at the declaration's own handle.
pub proof fn lemma_self_reference_resolves(
    c: ContextModel,
    ns: Seq<NameModel>,
    td: TypeDefModel,
    fields: Seq<FieldModel>,
    self_name: Seq<NameModel>,
    k: int,
)
    requires
        td.shape == TypeModel::Struct(fields),
        0 <= k < fields.len(),
        fields[k].type_ref == (TypeRefModel::ByName {
            name: self_name,
            params: Seq::<TypeRefModel>::empty(),
        }),
        qualify(ns, self_name) == ns.push(td.name),
    ensures
        ({
            let d = add_type_def_model(c, ns, td);
            let key = ns.push(td.name);
            let id = named_find(d.named, key)->0;
            let info = defined_find(d.defined, id)->0;
            &&& named_find(d.named, key) is Some
            &&& defined_find(d.defined, id) is Some
            &&& info.def.shape is Struct
            &&& (info.def.shape->Struct_0)[k].type_ref == (TypeRefModel::ById {
                id,
                params: Seq::<TypeRefModel>::empty(),
            })
        }),
{
    let key = ns.push(td.name);
    let found = named_find(c.named, key);
    let id: nat = match found {
        Some(i) => i,
        None => c.next_id,
    };
    let c1 = ContextModel {
        defined: c.defined,
        named: named_upsert(c.named, key, id),
        undefined: without_id(c.undefined, id),
        next_id: if found is Some {
            c.next_id
        } else {
            c.next_id + 1
        },
    };
    let c2 = add_type_model(c1, ns, td.shape);
    let info = TypeInfoModel { name: key, def: rewrite_type_def_model(c2, ns, td) };
    let d = add_type_def_model(c, ns, td);
    lemma_named_upsert_find(c.named, key, id, key);
    lemma_add_type_grows(c1, ns, td.shape);
    lemma_grows_extends(c1, c2);
    assert(named_find(c2.named, key) == Some(id));
    lemma_defined_upsert_find(c2.defined, id, info, id);
    assert(named_find(d.named, key) == Some(id));
    assert(defined_find(d.defined, id) == Some(info));
    assert(info.def.shape == TypeModel::Struct(rewrite_fields_model(c2, ns, fields)));
    lemma_rewrite_fields_index(c2, ns, fields, k);
    assert(rewrite_ref_model(c2, ns, fields[k].type_ref) == (TypeRefModel::ById {
        id,
        params: rewrite_refs_model(c2, ns, Seq::<TypeRefModel>::empty()),
    }));
    assert(rewrite_refs_model(c2, ns, Seq::<TypeRefModel>::empty())
        =~= Seq::<TypeRefModel>::empty());
}

/// The same, through a list wrapper: a struct inside a list whose field
/// references the declaration itself still resolves to its own handle.
pub proof fn lemma_self_reference_in_list_resolves(
    c: ContextModel,
    ns: Seq<NameModel>,
    td: TypeDefModel,
    fields: Seq<FieldModel>,
    self_name: Seq<NameModel>,
    k: int,
)
    requires
        td.shape == TypeModel::List(Box::new(TypeModel::Struct(fields))),
        0 <= k < fields.len(),
        fields[k].type_ref == (TypeRefModel::ByName {
            name: self_name,
            params: Seq::<TypeRefModel>::empty(),
        }),
        qualify(ns, self_name) == ns.push(td.name),
    ensures
        ({
            let d = add_type_def_model(c, ns, td);
            let key = ns.push(td.name);
            let id = named_find(d.named, key)->0;
            let info = defined_find(d.defined, id)->0;
            &&& named_find(d.named, key) is Some
            &&& defined_find(d.defined, id) is Some
            &&& info.def.shape is List
            &&& *(info.def.shape->List_0) is Struct
            &&& ((*(info.def.shape->List_0))->Struct_0)[k].type_ref == (TypeRefModel::ById {
                id,
                params: Seq::<TypeRefModel>::empty(),
            })
        }),
{
    let key = ns.push(td.name);
    let found = named_find(c.named, key);
    let id: nat = match found {
        Some(i) => i,
        None => c.next_id,
    };
    let c1 = ContextModel {
        defined: c.defined,
        named: named_upsert(c.named, key, id),
        undefined: without_id(c.undefined, id),
        next_id: if found is Some {
            c.next_id
        } else {
            c.next_id + 1
        },
    };
    let c2 = add_type_model(c1, ns, td.shape);
    let info = TypeInfoModel { name: key, def: rewrite_type_def_model(c2, ns, td) };
    let d = add_type_def_model(c, ns, td);
    lemma_named_upsert_find(c.named, key, id, key);
    lemma_add_type_grows(c1, ns, td.shape);
    lemma_grows_extends(c1, c2);
    assert(named_find(c2.named, key) == Some(id));
    lemma_defined_upsert_find(c2.defined, id, info, id);
    assert(named_find(d.named, key) == Some(id));
    assert(defined_find(d.defined, id) == Some(info));
    assert(*(td.shape->List_0) == TypeModel::Struct(fields));
    assert(rewrite_type_model(c2, ns, td.shape) == TypeModel::List(
        Box::new(rewrite_type_model(c2, ns, TypeModel::Struct(fields))),
    ));
    assert(info.def.shape == TypeModel::List(
        Box::new(TypeModel::Struct(rewrite_fields_model(c2, ns, fields))),
    ));
    lemma_rewrite_fields_index(c2, ns, fields, k);
    assert(rewrite_refs_model(c2, ns, Seq::<TypeRefModel>::empty())
        =~= Seq::<TypeRefModel>::empty());
}

} // verus!
