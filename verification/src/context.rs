//! The resolution context: one cross-file symbol table built in a single
//! pass over the declaration tree, answering lookups by qualified name and
//! by handle, and recording which handles were referenced but never defined.

use vstd::prelude::*;

use crate::idgen::TypeIdGenerator;
use crate::names::NameModel;
use crate::names::QualifiedName;
use crate::names::qn_eq;
use crate::nodes::Field;
use crate::nodes::FieldModel;
use crate::nodes::FileModel;
use crate::nodes::Struct;
use crate::nodes::Enum;
use crate::nodes::File;
use crate::nodes::Root;
use crate::nodes::Type;
use crate::nodes::TypeDef;
use crate::nodes::TypeDefModel;
use crate::nodes::TypeId;
use crate::nodes::TypeModel;
use crate::nodes::TypeRef;
use crate::nodes::TypeRefById;
use crate::nodes::TypeRefModel;
use crate::nodes::fields_model;
use crate::nodes::params_model;
use crate::nodes::ref_weight;
use crate::nodes::refs_weight;
use crate::nodes::fields_weight;
use crate::nodes::type_weight;
use crate::nodes::type_def_weight;
use crate::nodes::type_defs_model;
use crate::nodes::type_defs_weight;
use crate::nodes::file_weight;
use crate::nodes::ref_resolved;
use crate::nodes::refs_resolved;
use crate::nodes::fields_resolved;
use crate::nodes::type_resolved;
use crate::nodes::files_model;
use crate::nodes::files_weight;

verus! {

/// A resolved type: its canonical qualified name and its fully id-based
/// declaration.
#[derive(Debug)]
pub struct TypeInfo {
    pub name: QualifiedName,
    pub def: TypeDef,
}

/// Mathematical model of a resolved type's entry.
#[verifier::ext_equal]
pub ghost struct TypeInfoModel {
    pub name: Seq<NameModel>,
    pub def: TypeDefModel,
}

impl View for TypeInfo {
    type V = TypeInfoModel;

    open spec fn view(&self) -> TypeInfoModel {
        TypeInfoModel { name: self.name@, def: self.def@ }
    }
}

impl TypeInfo {
    /// An entry with the given canonical name and resolved declaration.
    pub fn new(name: QualifiedName, def: TypeDef) -> (r: TypeInfo)
        ensures
            r@ == (TypeInfoModel { name: name@, def: def@ }),
    {
        TypeInfo { name, def }
    }

    /// The canonical qualified name.
    pub fn name(&self) -> (r: &QualifiedName)
        ensures
            r@ == self@.name,
    {
        &self.name
    }

    /// The resolved declaration.
    pub fn def(&self) -> (r: &TypeDef)
        ensures
            r@ == self@.def,
    {
        &self.def
    }
}

impl Clone for TypeInfo {
    /// An equal entry.
    fn clone(&self) -> (r: Self)
        ensures
            r@ == self@,
    {
        let r = TypeInfo { name: self.name.clone(), def: self.def.clone() };
        proof {
            assert(r@ =~= self@);
        }
        r
    }
}

/// What resolving a name or a handle yields: the canonical qualified name,
/// the handle when the name has been seen, and the declaration when the
/// type has been defined.
#[derive(Debug)]
pub struct NameResolution {
    pub name: QualifiedName,
    pub id: Option<TypeId>,
    pub def: Option<TypeDef>,
}

/// Mathematical model of a resolution answer.
#[verifier::ext_equal]
pub ghost struct ResolutionModel {
    pub name: Seq<NameModel>,
    pub id: Option<nat>,
    pub def: Option<TypeDefModel>,
}

/// The model of an optional handle.
pub open spec fn id_option_model(o: Option<TypeId>) -> Option<nat> {
    match o {
        Some(t) => Some(t@),
        None => None,
    }
}

/// The model of an optional declaration.
pub open spec fn def_option_model(o: Option<TypeDef>) -> Option<TypeDefModel> {
    match o {
        Some(d) => Some(d@),
        None => None,
    }
}

impl View for NameResolution {
    type V = ResolutionModel;

    open spec fn view(&self) -> ResolutionModel {
        ResolutionModel {
            name: self.name@,
            id: id_option_model(self.id),
            def: def_option_model(self.def),
        }
    }
}

impl NameResolution {
    /// A resolution answer with the given parts.
    pub fn new(name: QualifiedName, id: Option<TypeId>, def: Option<TypeDef>) -> (r: NameResolution)
        ensures
            r@ == (ResolutionModel {
                name: name@,
                id: id_option_model(id),
                def: def_option_model(def),
            }),
    {
        NameResolution { name, id, def }
    }

    /// The canonical qualified name the lookup used.
    pub fn name(&self) -> (r: &QualifiedName)
        ensures
            r@ == self@.name,
    {
        &self.name
    }

    /// The handle, present when the name has been seen.
    pub fn id(&self) -> (r: &Option<TypeId>)
        ensures
            id_option_model(*r) == self@.id,
    {
        &self.id
    }

    /// The declaration, present when the type has been defined.
    pub fn def(&self) -> (r: &Option<TypeDef>)
        ensures
            def_option_model(*r) == self@.def,
    {
        &self.def
    }

    /// Whether the name has been seen at all: a handle exists for it.
    pub fn is_referenced(&self) -> (r: bool)
        ensures
            r == (self@.id is Some),
    {
        self.id.is_some()
    }

    /// Whether the name's type has been defined.
    pub fn is_defined(&self) -> (r: bool)
        ensures
            r == (self@.def is Some),
    {
        self.def.is_some()
    }
}

/// The symbol table: every type seen so far, keyed both by handle (when
/// defined) and by canonical qualified name (when referenced at all),
/// together with the handles still lacking a definition.
pub struct Context {
    pub defined_types: Vec<(TypeId, TypeInfo)>,
    pub named_types: Vec<(QualifiedName, TypeId)>,
    pub undefined_ids: Vec<TypeId>,
    pub type_id_generator: TypeIdGenerator,
}

/// Mathematical model of a context: the three tables as ordered entry
/// sequences (lookups take the first match), plus the allocator's state.
#[verifier::ext_equal]
pub ghost struct ContextModel {
    pub defined: Seq<(nat, TypeInfoModel)>,
    pub named: Seq<(Seq<NameModel>, nat)>,
    pub undefined: Seq<nat>,
    pub next_id: nat,
}

pub open spec fn defined_entries_model(s: Seq<(TypeId, TypeInfo)>) -> Seq<(nat, TypeInfoModel)> {
    s.map_values(|p: (TypeId, TypeInfo)| (p.0@, p.1@))
}

pub open spec fn named_entries_model(s: Seq<(QualifiedName, TypeId)>) -> Seq<
    (Seq<NameModel>, nat),
> {
    s.map_values(|p: (QualifiedName, TypeId)| (p.0@, p.1@))
}

pub open spec fn ids_model(s: Seq<TypeId>) -> Seq<nat> {
    s.map_values(|t: TypeId| t@)
}

impl View for Context {
    type V = ContextModel;

    open spec fn view(&self) -> ContextModel {
        ContextModel {
            defined: defined_entries_model(self.defined_types@),
            named: named_entries_model(self.named_types@),
            undefined: ids_model(self.undefined_ids@),
            next_id: self.type_id_generator@,
        }
    }
}

/// The index of the first entry with this key, scanning from `i`; negative
/// when there is none.
pub open spec fn named_index_from(
    named: Seq<(Seq<NameModel>, nat)>,
    key: Seq<NameModel>,
    i: int,
) -> int
    decreases named.len() - i,
{
    if i < 0 || i >= named.len() {
        -1
    } else if named[i].0 == key {
        i
    } else {
        named_index_from(named, key, i + 1)
    }
}

pub open spec fn named_index(named: Seq<(Seq<NameModel>, nat)>, key: Seq<NameModel>) -> int {
    named_index_from(named, key, 0)
}

/// The handle the table gives this key, if any.
pub open spec fn named_find(named: Seq<(Seq<NameModel>, nat)>, key: Seq<NameModel>) -> Option<
    nat,
> {
    let i = named_index(named, key);
    if i >= 0 {
        Some(named[i].1)
    } else {
        None
    }
}

/// The index of the first entry with this handle, scanning from `i`;
/// negative when there is none.
pub open spec fn defined_index_from(defined: Seq<(nat, TypeInfoModel)>, id: nat, i: int) -> int
    decreases defined.len() - i,
{
    if i < 0 || i >= defined.len() {
        -1
    } else if defined[i].0 == id {
        i
    } else {
        defined_index_from(defined, id, i + 1)
    }
}

pub open spec fn defined_index(defined: Seq<(nat, TypeInfoModel)>, id: nat) -> int {
    defined_index_from(defined, id, 0)
}

/// The entry the table gives this handle, if any.
pub open spec fn defined_find(defined: Seq<(nat, TypeInfoModel)>, id: nat) -> Option<
    TypeInfoModel,
> {
    let i = defined_index(defined, id);
    if i >= 0 {
        Some(defined[i].1)
    } else {
        None
    }
}

/// The canonical form of a looked-up name: a single-token name is scoped
/// to the containing namespace; a longer one is already fully qualified.
pub open spec fn qualify(ns: Seq<NameModel>, q: Seq<NameModel>) -> Seq<NameModel> {
    if q.len() == 1 {
        ns.push(q[0])
    } else {
        q
    }
}

/// What resolving `q` against namespace `ns` answers in context `c`.
pub open spec fn resolution_of(c: ContextModel, ns: Seq<NameModel>, q: Seq<NameModel>)
    -> ResolutionModel {
    let key = qualify(ns, q);
    let id = named_find(c.named, key);
    let def = match id {
        Some(i) => match defined_find(c.defined, i) {
            Some(info) => Some(info.def),
            None => None,
        },
        None => None,
    };
    ResolutionModel { name: key, id, def }
}

/// What resolving the handle `id` answers in context `c`.
pub open spec fn resolution_of_id(c: ContextModel, id: nat) -> Option<ResolutionModel> {
    match defined_find(c.defined, id) {
        Some(info) => Some(
            ResolutionModel { name: info.name, id: Some(id), def: Some(info.def) },
        ),
        None => None,
    }
}

/// The model of a context with nothing in it.
pub open spec fn empty_context_model() -> ContextModel {
    ContextModel { defined: Seq::empty(), named: Seq::empty(), undefined: Seq::empty(), next_id: 0 }
}

impl Context {
    /// A context with nothing in it.
    pub fn new() -> (r: Context)
        ensures
            r@ == empty_context_model(),
    {
        let r = Context {
            defined_types: Vec::new(),
            named_types: Vec::new(),
            undefined_ids: Vec::new(),
            type_id_generator: TypeIdGenerator::new(),
        };
        proof {
            assert(r@ =~= empty_context_model());
        }
        r
    }

    /// The handle the context gives this key, if any.
    fn find_named(&self, key: &QualifiedName) -> (r: Option<TypeId>)
        ensures
            id_option_model(r) == named_find(self@.named, key@),
    {
        let mut i: usize = 0;
        while i < self.named_types.len()
            invariant
                i <= self.named_types.len(),
                named_index(self@.named, key@) == named_index_from(self@.named, key@, i as int),
            decreases self.named_types.len() - i,
        {
            proof {
                assert(self@.named[i as int] == (self.named_types@[i as int].0@,
                self.named_types@[i as int].1@));
            }
            if qn_eq(&self.named_types[i].0, key) {
                return Some(self.named_types[i].1);
            }
            i = i + 1;
        }
        None
    }

    /// The entry the context gives this handle, if any.
    fn find_defined(&self, id: &TypeId) -> (r: Option<&TypeInfo>)
        ensures
            match r {
                Some(info) => defined_find(self@.defined, id@) == Some(info@),
                None => defined_find(self@.defined, id@) is None,
            },
    {
        let mut i: usize = 0;
        while i < self.defined_types.len()
            invariant
                i <= self.defined_types.len(),
                defined_index(self@.defined, id@) == defined_index_from(
                    self@.defined,
                    id@,
                    i as int,
                ),
            decreases self.defined_types.len() - i,
        {
            proof {
                assert(self@.defined[i as int] == (self.defined_types@[i as int].0@,
                self.defined_types@[i as int].1@));
            }
            if self.defined_types[i].0 == *id {
                return Some(&self.defined_types[i].1);
            }
            i = i + 1;
        }
        None
    }

    /// Resolve a name against a containing namespace: a single-token name
    /// is scoped to the namespace first; the canonical name is looked up
    /// for a handle, and the handle for a definition.
    pub fn resolve_name(&self, ctx_namespace: &QualifiedName, qname: &QualifiedName) -> (r:
        NameResolution)
        ensures
            r@ == resolution_of(self@, ctx_namespace@, qname@),
    {
        let qname = if qname.names.len() == 1 {
            match qname.last() {
                Some(last) => ctx_namespace.with_appended(last),
                None => qname.clone(),
            }
        } else {
            qname.clone()
        };
        let type_id = self.find_named(&qname);
        let type_def = match &type_id {
            Some(id) => match self.find_defined(id) {
                Some(info) => Some(info.def.clone()),
                None => None,
            },
            None => None,
        };
        NameResolution::new(qname, type_id, type_def)
    }

    /// Resolve a handle: present exactly when the context holds a
    /// definition for it, and then carrying that entry's canonical name
    /// and declaration.
    pub fn resolve_id(&self, id: &TypeId) -> (r: Option<NameResolution>)
        ensures
            match r {
                Some(res) => resolution_of_id(self@, id@) == Some(res@),
                None => resolution_of_id(self@, id@) is None,
            },
    {
        let resolved = self.find_defined(id);
        match resolved {
            Some(info) => Some(
                NameResolution::new(info.name.clone(), Some(*id), Some(info.def.clone())),
            ),
            None => None,
        }
    }

    /// The handles that have been referenced but never defined, in the
    /// order they were first referenced.
    pub fn unresolved_ids(&self) -> (r: &Vec<TypeId>)
        ensures
            ids_model(r@) == self@.undefined,
    {
        &self.undefined_ids
    }
}

/// The table with `key` bound to `id`: the first entry with that key is
/// replaced, or a new entry is appended.
pub open spec fn named_upsert(
    named: Seq<(Seq<NameModel>, nat)>,
    key: Seq<NameModel>,
    id: nat,
) -> Seq<(Seq<NameModel>, nat)> {
    let i = named_index(named, key);
    if i >= 0 {
        named.update(i, (key, id))
    } else {
        named.push((key, id))
    }
}

/// The table with `id` bound to `info`: the first entry with that handle
/// is replaced, or a new entry is appended.
pub open spec fn defined_upsert(
    defined: Seq<(nat, TypeInfoModel)>,
    id: nat,
    info: TypeInfoModel,
) -> Seq<(nat, TypeInfoModel)> {
    let i = defined_index(defined, id);
    if i >= 0 {
        defined.update(i, (id, info))
    } else {
        defined.push((id, info))
    }
}

/// The sequence with every occurrence of `id` removed; order kept.
pub open spec fn without_id(s: Seq<nat>, id: nat) -> Seq<nat>
    decreases s,
{
    if s.len() == 0 {
        Seq::empty()
    } else {
        let rest = without_id(s.drop_last(), id);
        if s.last() == id {
            rest
        } else {
            rest.push(s.last())
        }
    }
}

/// The reference pass for one reference: a by-name reference whose
/// canonical name has no handle yet gets a fresh one, recorded as
/// undefined; then the parameters, depth-first and left to right.
pub open spec fn add_ref_model(c: ContextModel, ns: Seq<NameModel>, r: TypeRefModel) -> ContextModel
    decreases r,
{
    match r {
        TypeRefModel::ByName { name, params } => {
            let key = qualify(ns, name);
            let c1 = if named_find(c.named, key) is Some {
                c
            } else {
                ContextModel {
                    defined: c.defined,
                    named: c.named.push((key, c.next_id)),
                    undefined: c.undefined.push(c.next_id),
                    next_id: c.next_id + 1,
                }
            };
            add_refs_model(c1, ns, params)
        },
        TypeRefModel::ById { id, params } => add_refs_model(c, ns, params),
    }
}

/// The reference pass over a parameter list, left to right.
pub open spec fn add_refs_model(
    c: ContextModel,
    ns: Seq<NameModel>,
    params: Seq<TypeRefModel>,
) -> ContextModel
    decreases params,
{
    if params.len() == 0 {
        c
    } else {
        add_refs_model(add_ref_model(c, ns, params[0]), ns, params.drop_first())
    }
}

/// The reference pass over a field list, left to right.
pub open spec fn add_fields_model(
    c: ContextModel,
    ns: Seq<NameModel>,
    fields: Seq<FieldModel>,
) -> ContextModel
    decreases fields,
{
    if fields.len() == 0 {
        c
    } else {
        add_fields_model(add_ref_model(c, ns, fields[0].type_ref), ns, fields.drop_first())
    }
}

/// The reference pass over one shape.
pub open spec fn add_type_model(c: ContextModel, ns: Seq<NameModel>, t: TypeModel) -> ContextModel
    decreases t,
{
    match t {
        TypeModel::Primitive(p) => c,
        TypeModel::Struct(fields) => add_fields_model(c, ns, fields),
        TypeModel::Enum(fields) => add_fields_model(c, ns, fields),
        TypeModel::List(inner) => add_type_model(c, ns, *inner),
    }
}

/// Whether every by-name reference inside `r` has a handle in `c`.
pub open spec fn ref_registered(c: ContextModel, ns: Seq<NameModel>, r: TypeRefModel) -> bool
    decreases r,
{
    match r {
        TypeRefModel::ByName { name, params } => named_find(c.named, qualify(ns, name)) is Some
            && refs_registered(c, ns, params),
        TypeRefModel::ById { id, params } => refs_registered(c, ns, params),
    }
}

pub open spec fn refs_registered(c: ContextModel, ns: Seq<NameModel>, s: Seq<TypeRefModel>) -> bool
    decreases s,
{
    forall|i: int| 0 <= i < s.len() ==> ref_registered(c, ns, #[trigger] s[i])
}

pub open spec fn fields_registered(
    c: ContextModel,
    ns: Seq<NameModel>,
    s: Seq<FieldModel>,
) -> bool {
    forall|i: int| 0 <= i < s.len() ==> ref_registered(c, ns, (#[trigger] s[i]).type_ref)
}

/// Whether every by-name reference inside the shape has a handle in `c`.
pub open spec fn type_registered(c: ContextModel, ns: Seq<NameModel>, t: TypeModel) -> bool
    decreases t,
{
    match t {
        TypeModel::Primitive(p) => true,
        TypeModel::Struct(fields) => fields_registered(c, ns, fields),
        TypeModel::Enum(fields) => fields_registered(c, ns, fields),
        TypeModel::List(inner) => type_registered(c, ns, *inner),
    }
}

/// The handle a registered canonical name resolves to; zero stands in for
/// the absent case, which registered inputs never reach.
pub open spec fn found_id(c: ContextModel, key: Seq<NameModel>) -> nat {
    match named_find(c.named, key) {
        Some(i) => i,
        None => 0,
    }
}

/// One reference re-expressed by handle, parameters rewritten depth-first.
pub open spec fn rewrite_ref_model(c: ContextModel, ns: Seq<NameModel>, r: TypeRefModel)
    -> TypeRefModel
    decreases r,
{
    match r {
        TypeRefModel::ByName { name, params } => TypeRefModel::ById {
            id: found_id(c, qualify(ns, name)),
            params: rewrite_refs_model(c, ns, params),
        },
        TypeRefModel::ById { id, params } => TypeRefModel::ById {
            id,
            params: rewrite_refs_model(c, ns, params),
        },
    }
}

pub open spec fn rewrite_refs_model(
    c: ContextModel,
    ns: Seq<NameModel>,
    s: Seq<TypeRefModel>,
) -> Seq<TypeRefModel>
    decreases s,
{
    if s.len() == 0 {
        Seq::empty()
    } else {
        rewrite_refs_model(c, ns, s.drop_last()).push(rewrite_ref_model(c, ns, s.last()))
    }
}

pub open spec fn rewrite_fields_model(
    c: ContextModel,
    ns: Seq<NameModel>,
    s: Seq<FieldModel>,
) -> Seq<FieldModel>
    decreases s,
{
    if s.len() == 0 {
        Seq::empty()
    } else {
        rewrite_fields_model(c, ns, s.drop_last()).push(
            FieldModel {
                name: s.last().name,
                type_ref: rewrite_ref_model(c, ns, s.last().type_ref),
            },
        )
    }
}

/// One shape with every reference re-expressed by handle.
pub open spec fn rewrite_type_model(c: ContextModel, ns: Seq<NameModel>, t: TypeModel) -> TypeModel
    decreases t,
{
    match t {
        TypeModel::Primitive(p) => TypeModel::Primitive(p),
        TypeModel::Struct(fields) => TypeModel::Struct(rewrite_fields_model(c, ns, fields)),
        TypeModel::Enum(fields) => TypeModel::Enum(rewrite_fields_model(c, ns, fields)),
        TypeModel::List(inner) => TypeModel::List(Box::new(rewrite_type_model(c, ns, *inner))),
    }
}

/// One declaration with every reference re-expressed by handle.
pub open spec fn rewrite_type_def_model(
    c: ContextModel,
    ns: Seq<NameModel>,
    td: TypeDefModel,
) -> TypeDefModel {
    TypeDefModel { name: td.name, shape: rewrite_type_model(c, ns, td.shape) }
}

/// The definition pass for one declaration: bind its canonical name to a
/// handle (reusing one an earlier reference allocated), drop that handle
/// from the undefined set, register the shape's references, and store the
/// fully rewritten declaration under the handle.
pub open spec fn add_type_def_model(c: ContextModel, ns: Seq<NameModel>, td: TypeDefModel)
    -> ContextModel {
    let key = ns.push(td.name);
    let found = named_find(c.named, key);
    let id = match found {
        Some(i) => i,
        None => c.next_id,
    };
    let c1 = ContextModel {
        defined: c.defined,
        named: named_upsert(c.named, key, id),
        undefined: without_id(c.undefined, id),
        next_id: if found is Some {
            c.next_id
        } else {
            c.next_id + 1
        },
    };
    let c2 = add_type_model(c1, ns, td.shape);
    ContextModel {
        defined: defined_upsert(
            c2.defined,
            id,
            TypeInfoModel { name: key, def: rewrite_type_def_model(c2, ns, td) },
        ),
        named: c2.named,
        undefined: c2.undefined,
        next_id: c2.next_id,
    }
}

/// The definition pass over a file's declarations, in order.
pub open spec fn add_type_defs_model(
    c: ContextModel,
    ns: Seq<NameModel>,
    tds: Seq<TypeDefModel>,
) -> ContextModel
    decreases tds,
{
    if tds.len() == 0 {
        c
    } else {
        add_type_defs_model(add_type_def_model(c, ns, tds[0]), ns, tds.drop_first())
    }
}

/// One file folded into the context.
pub open spec fn add_file_model(c: ContextModel, f: FileModel) -> ContextModel {
    add_type_defs_model(c, f.namespace, f.types)
}

/// A whole declaration tree folded into the context, file by file.
pub open spec fn add_files_model(c: ContextModel, files: Seq<FileModel>) -> ContextModel
    decreases files,
{
    if files.len() == 0 {
        c
    } else {
        add_files_model(add_file_model(c, files[0]), files.drop_first())
    }
}

/// The context that construction from a declaration tree yields.
pub open spec fn construct_model(files: Seq<FileModel>) -> ContextModel {
    add_files_model(empty_context_model(), files)
}

/// Where the first match for `key` sits, spelled out: either there is
/// none past `i`, or the returned index is the first one.
pub proof fn lemma_named_index_from_props(named: Seq<(Seq<NameModel>, nat)>, key: Seq<NameModel>, i: int)
    requires
        0 <= i,
    ensures
        ({
            let r = named_index_from(named, key, i);
            &&& (r == -1 || i <= r < named.len())
            &&& (r == -1 <==> (forall|j: int| i <= j < named.len() ==> (#[trigger] named[j]).0
                != key))
            &&& (r >= 0 ==> i <= r < named.len() && named[r].0 == key && (forall|j: int|
                i <= j < r ==> (#[trigger] named[j]).0 != key))
        }),
    decreases named.len() - i,
{
    if i < named.len() && named[i].0 != key {
        lemma_named_index_from_props(named, key, i + 1);
    }
}

/// Where the first match for `id` sits, spelled out.
pub proof fn lemma_defined_index_from_props(defined: Seq<(nat, TypeInfoModel)>, id: nat, i: int)
    requires
        0 <= i,
    ensures
        ({
            let r = defined_index_from(defined, id, i);
            &&& (r == -1 || i <= r < defined.len())
            &&& (r == -1 <==> (forall|j: int| i <= j < defined.len() ==> (#[trigger] defined[j]).0
                != id))
            &&& (r >= 0 ==> i <= r < defined.len() && defined[r].0 == id && (forall|j: int|
                i <= j < r ==> (#[trigger] defined[j]).0 != id))
        }),
    decreases defined.len() - i,
{
    if i < defined.len() && defined[i].0 != id {
        lemma_defined_index_from_props(defined, id, i + 1);
    }
}

/// A table whose keys are untouched keeps its first-match indices.
pub proof fn lemma_named_index_same_keys(
    a: Seq<(Seq<NameModel>, nat)>,
    b: Seq<(Seq<NameModel>, nat)>,
    key: Seq<NameModel>,
    i: int,
)
    requires
        0 <= i,
        a.len() == b.len(),
        forall|j: int| 0 <= j < a.len() ==> (#[trigger] a[j]).0 == b[j].0,
    ensures
        named_index_from(a, key, i) == named_index_from(b, key, i),
    decreases a.len() - i,
{
    if i < a.len() && a[i].0 != key {
        lemma_named_index_same_keys(a, b, key, i + 1);
    }
}

/// Appending entries does not move an existing first match.
pub proof fn lemma_named_index_extend(
    a: Seq<(Seq<NameModel>, nat)>,
    b: Seq<(Seq<NameModel>, nat)>,
    key: Seq<NameModel>,
    i: int,
)
    requires
        0 <= i,
        a.len() <= b.len(),
        forall|j: int| 0 <= j < a.len() ==> #[trigger] b[j] == a[j],
        named_index_from(a, key, i) >= 0,
    ensures
        named_index_from(b, key, i) == named_index_from(a, key, i),
        b[named_index_from(b, key, i)] == a[named_index_from(a, key, i)],
    decreases a.len() - i,
{
    if i < a.len() && a[i].0 != key {
        lemma_named_index_extend(a, b, key, i + 1);
    }
}

/// The same, for the handle table.
pub proof fn lemma_defined_index_extend(
    a: Seq<(nat, TypeInfoModel)>,
    b: Seq<(nat, TypeInfoModel)>,
    id: nat,
    i: int,
)
    requires
        0 <= i,
        a.len() <= b.len(),
        forall|j: int| 0 <= j < a.len() ==> #[trigger] b[j] == a[j],
        defined_index_from(a, id, i) >= 0,
    ensures
        defined_index_from(b, id, i) == defined_index_from(a, id, i),
        b[defined_index_from(b, id, i)] == a[defined_index_from(a, id, i)],
    decreases a.len() - i,
{
    if i < a.len() && a[i].0 != id {
        lemma_defined_index_extend(a, b, id, i + 1);
    }
}

/// What a lookup answers after binding `key` to `id`: that pair for `key`
/// itself, and the old answer for every other key.
pub proof fn lemma_named_upsert_find(
    named: Seq<(Seq<NameModel>, nat)>,
    key: Seq<NameModel>,
    id: nat,
    k2: Seq<NameModel>,
)
    ensures
        named_find(named_upsert(named, key, id), k2) == if k2 == key {
            Some(id)
        } else {
            named_find(named, k2)
        },
{
    let i = named_index(named, key);
    let u = named_upsert(named, key, id);
    let r = named_index(u, k2);
    let r0 = named_index(named, k2);
    lemma_named_index_from_props(named, key, 0);
    lemma_named_index_from_props(u, k2, 0);
    lemma_named_index_from_props(named, k2, 0);
    if i >= 0 {
        assert forall|j: int| 0 <= j < u.len() implies (#[trigger] u[j]).0 == named[j].0 by {
            if j != i {
                assert(u[j] == named[j]);
            }
        }
        lemma_named_index_same_keys(u, named, k2, 0);
        if k2 == key {
            assert(r == i);
            assert(u[i].1 == id);
        } else {
            if r0 >= 0 {
                assert(named[r0].0 == k2);
                assert(r0 != i);
                assert(u[r0] == named[r0]);
            }
        }
    } else {
        assert(u == named.push((key, id)));
        assert(forall|j: int| 0 <= j < named.len() ==> #[trigger] u[j] == named[j]);
        if k2 == key {
            assert(u[named.len() as int].0 == k2);
            assert(r >= 0);
            if r < named.len() {
                assert(named[r].0 == k2);
                assert(false);
            }
            assert(r == named.len());
            assert(u[r].1 == id);
        } else {
            if r0 >= 0 {
                lemma_named_index_extend(named, u, k2, 0);
            } else {
                assert forall|j: int| 0 <= j < u.len() implies (#[trigger] u[j]).0 != k2 by {
                    if j < named.len() {
                        assert(u[j] == named[j]);
                    } else {
                        assert(u[j].0 == key);
                    }
                }
                assert(r == -1);
            }
        }
    }
}

/// What a handle lookup answers after binding `id` to `info`.
pub proof fn lemma_defined_upsert_find(
    defined: Seq<(nat, TypeInfoModel)>,
    id: nat,
    info: TypeInfoModel,
    id2: nat,
)
    ensures
        defined_find(defined_upsert(defined, id, info), id2) == if id2 == id {
            Some(info)
        } else {
            defined_find(defined, id2)
        },
{
    let i = defined_index(defined, id);
    let u = defined_upsert(defined, id, info);
    let r = defined_index(u, id2);
    let r0 = defined_index(defined, id2);
    lemma_defined_index_from_props(defined, id, 0);
    lemma_defined_index_from_props(u, id2, 0);
    lemma_defined_index_from_props(defined, id2, 0);
    if i >= 0 {
        assert forall|j: int| 0 <= j < u.len() implies (#[trigger] u[j]).0 == defined[j].0 by {
            if j != i {
                assert(u[j] == defined[j]);
            }
        }
        lemma_defined_index_same_keys(u, defined, id2, 0);
        if id2 == id {
            assert(r == i);
            assert(u[i].1 == info);
        } else {
            if r0 >= 0 {
                assert(defined[r0].0 == id2);
                assert(r0 != i);
                assert(u[r0] == defined[r0]);
            }
        }
    } else {
        assert(u == defined.push((id, info)));
        assert(forall|j: int| 0 <= j < defined.len() ==> #[trigger] u[j] == defined[j]);
        if id2 == id {
            assert(u[defined.len() as int].0 == id2);
            assert(r >= 0);
            if r < defined.len() {
                assert(defined[r].0 == id2);
                assert(false);
            }
            assert(r == defined.len());
            assert(u[r].1 == info);
        } else {
            if r0 >= 0 {
                lemma_defined_index_extend(defined, u, id2, 0);
            } else {
                assert forall|j: int| 0 <= j < u.len() implies (#[trigger] u[j]).0 != id2 by {
                    if j < defined.len() {
                        assert(u[j] == defined[j]);
                    } else {
                        assert(u[j].0 == id);
                    }
                }
                assert(r == -1);
            }
        }
    }
}

/// A handle table whose keys are untouched keeps its first-match indices.
pub proof fn lemma_defined_index_same_keys(
    a: Seq<(nat, TypeInfoModel)>,
    b: Seq<(nat, TypeInfoModel)>,
    id: nat,
    i: int,
)
    requires
        0 <= i,
        a.len() == b.len(),
        forall|j: int| 0 <= j < a.len() ==> (#[trigger] a[j]).0 == b[j].0,
    ensures
        defined_index_from(a, id, i) == defined_index_from(b, id, i),
    decreases a.len() - i,
{
    if i < a.len() && a[i].0 != id {
        lemma_defined_index_same_keys(a, b, id, i + 1);
    }
}

/// What the undefined list holds after removing a handle.
pub proof fn lemma_without_id_contains(s: Seq<nat>, id: nat, x: nat)
    ensures
        without_id(s, id).contains(x) <==> (s.contains(x) && x != id),
    decreases s,
{
    if s.len() > 0 {
        lemma_without_id_contains(s.drop_last(), id, x);
        let rest = without_id(s.drop_last(), id);
        if s.last() == id {
            assert(s.contains(x) && x != id ==> s.drop_last().contains(x)) by {
                if s.contains(x) && x != id {
                    let w = choose|w: int| 0 <= w < s.len() && s[w] == x;
                    assert(w < s.len() - 1);
                    assert(s.drop_last()[w] == x);
                }
            }
            assert(s.drop_last().contains(x) ==> s.contains(x)) by {
                if s.drop_last().contains(x) {
                    let w = choose|w: int| 0 <= w < s.len() - 1 && s.drop_last()[w] == x;
                    assert(s[w] == x);
                }
            }
        } else {
            let out = rest.push(s.last());
            assert(out.contains(x) <==> (rest.contains(x) || x == s.last())) by {
                if out.contains(x) {
                    let w = choose|w: int| 0 <= w < out.len() && out[w] == x;
                    if w < rest.len() {
                        assert(rest[w] == x);
                    }
                }
                if rest.contains(x) {
                    let w = choose|w: int| 0 <= w < rest.len() && rest[w] == x;
                    assert(out[w] == x);
                }
                assert(out[rest.len() as int] == s.last());
            }
            assert(s.contains(x) <==> (s.drop_last().contains(x) || x == s.last())) by {
                if s.contains(x) {
                    let w = choose|w: int| 0 <= w < s.len() && s[w] == x;
                    if w < s.len() - 1 {
                        assert(s.drop_last()[w] == x);
                    }
                }
                if s.drop_last().contains(x) {
                    let w = choose|w: int| 0 <= w < s.len() - 1 && s.drop_last()[w] == x;
                    assert(s[w] == x);
                }
            }
        }
    }
}

/// Removal keeps every bound that held of the members.
pub proof fn lemma_without_id_bound(s: Seq<nat>, id: nat, bound: nat)
    requires
        forall|j: int| 0 <= j < s.len() ==> #[trigger] s[j] < bound,
    ensures
        forall|j: int| 0 <= j < without_id(s, id).len() ==> #[trigger] without_id(s, id)[j]
            < bound,
        without_id(s, id).len() <= s.len(),
    decreases s,
{
    if s.len() > 0 {
        assert(forall|j: int| 0 <= j < s.drop_last().len() ==> #[trigger] s.drop_last()[j]
            < bound);
        lemma_without_id_bound(s.drop_last(), id, bound);
    }
}

/// How one context extends another during the reference pass: definitions
/// untouched, both tables only appended to, and every new handle taken
/// from the window the allocator advanced over, each new named handle also
/// recorded as undefined.
pub open spec fn grows(c: ContextModel, d: ContextModel) -> bool {
    &&& d.defined == c.defined
    &&& c.next_id <= d.next_id
    &&& c.named.len() <= d.named.len()
    &&& (forall|j: int| 0 <= j < c.named.len() ==> #[trigger] d.named[j] == c.named[j])
    &&& c.undefined.len() <= d.undefined.len()
    &&& (forall|j: int| 0 <= j < c.undefined.len() ==> #[trigger] d.undefined[j] == c.undefined[j])
    &&& (forall|j: int|
        c.named.len() <= j < d.named.len() ==> c.next_id <= (#[trigger] d.named[j]).1
            < d.next_id)
    &&& (forall|j: int|
        c.undefined.len() <= j < d.undefined.len() ==> c.next_id <= #[trigger] d.undefined[j]
            < d.next_id)
    &&& (forall|j: int|
        c.named.len() <= j < d.named.len() ==> d.undefined.contains((#[trigger] d.named[j]).1))
}

pub proof fn lemma_grows_refl(c: ContextModel)
    ensures
        grows(c, c),
{
}

pub proof fn lemma_grows_trans(c: ContextModel, d: ContextModel, e: ContextModel)
    requires
        grows(c, d),
        grows(d, e),
    ensures
        grows(c, e),
{
    assert forall|j: int| c.named.len() <= j < e.named.len() implies c.next_id <= (
    #[trigger] e.named[j]).1 < e.next_id by {
        if j < d.named.len() {
            assert(e.named[j] == d.named[j]);
        }
    }
    assert forall|j: int| c.undefined.len() <= j < e.undefined.len() implies c.next_id
        <= #[trigger] e.undefined[j] < e.next_id by {
        if j < d.undefined.len() {
            assert(e.undefined[j] == d.undefined[j]);
        }
    }
    assert forall|j: int| c.named.len() <= j < e.named.len() implies e.undefined.contains((
    #[trigger] e.named[j]).1) by {
        if j < d.named.len() {
            assert(e.named[j] == d.named[j]);
            assert(d.undefined.contains(d.named[j].1));
            let w = choose|w: int| 0 <= w < d.undefined.len() && d.undefined[w] == d.named[j].1;
            assert(e.undefined[w] == d.undefined[w]);
        }
    }
}

/// A key with a handle keeps that handle across growth.
pub proof fn lemma_find_stable(c: ContextModel, d: ContextModel, key: Seq<NameModel>)
    requires
        grows(c, d),
        named_find(c.named, key) is Some,
    ensures
        named_find(d.named, key) == named_find(c.named, key),
{
    lemma_named_index_from_props(c.named, key, 0);
    lemma_named_index_extend(c.named, d.named, key, 0);
}

/// Registration survives growth.
pub proof fn lemma_ref_registered_stable(
    c: ContextModel,
    d: ContextModel,
    ns: Seq<NameModel>,
    r: TypeRefModel,
)
    requires
        grows(c, d),
        ref_registered(c, ns, r),
    ensures
        ref_registered(d, ns, r),
    decreases r,
{
    match r {
        TypeRefModel::ByName { name, params } => {
            lemma_find_stable(c, d, qualify(ns, name));
            assert forall|i: int| 0 <= i < params.len() implies ref_registered(
                d,
                ns,
                #[trigger] params[i],
            ) by {
                lemma_ref_registered_stable(c, d, ns, params[i]);
            }
        },
        TypeRefModel::ById { id, params } => {
            assert forall|i: int| 0 <= i < params.len() implies ref_registered(
                d,
                ns,
                #[trigger] params[i],
            ) by {
                lemma_ref_registered_stable(c, d, ns, params[i]);
            }
        },
    }
}

pub proof fn lemma_type_registered_stable(
    c: ContextModel,
    d: ContextModel,
    ns: Seq<NameModel>,
    t: TypeModel,
)
    requires
        grows(c, d),
        type_registered(c, ns, t),
    ensures
        type_registered(d, ns, t),
    decreases t,
{
    match t {
        TypeModel::Primitive(p) => {},
        TypeModel::Struct(fields) => {
            assert forall|i: int| 0 <= i < fields.len() implies ref_registered(
                d,
                ns,
                (#[trigger] fields[i]).type_ref,
            ) by {
                lemma_ref_registered_stable(c, d, ns, fields[i].type_ref);
            }
        },
        TypeModel::Enum(fields) => {
            assert forall|i: int| 0 <= i < fields.len() implies ref_registered(
                d,
                ns,
                (#[trigger] fields[i]).type_ref,
            ) by {
                lemma_ref_registered_stable(c, d, ns, fields[i].type_ref);
            }
        },
        TypeModel::List(inner) => {
            lemma_type_registered_stable(c, d, ns, *inner);
        },
    }
}

/// The reference pass only grows the context, by at most its weight.
pub proof fn lemma_add_ref_grows(c: ContextModel, ns: Seq<NameModel>, r: TypeRefModel)
    ensures
        grows(c, add_ref_model(c, ns, r)),
        add_ref_model(c, ns, r).next_id <= c.next_id + ref_weight(r),
    decreases r,
{
    match r {
        TypeRefModel::ByName { name, params } => {
            let key = qualify(ns, name);
            let c1 = if named_find(c.named, key) is Some {
                c
            } else {
                ContextModel {
                    defined: c.defined,
                    named: c.named.push((key, c.next_id)),
                    undefined: c.undefined.push(c.next_id),
                    next_id: c.next_id + 1,
                }
            };
            assert(grows(c, c1)) by {
                if named_find(c.named, key) is None {
                    assert(c1.undefined[c.undefined.len() as int] == c.next_id);
                    assert(c1.undefined.contains(c.next_id));
                }
            }
            lemma_add_refs_grows(c1, ns, params);
            lemma_grows_trans(c, c1, add_refs_model(c1, ns, params));
        },
        TypeRefModel::ById { id, params } => {
            lemma_add_refs_grows(c, ns, params);
        },
    }
}

pub proof fn lemma_add_refs_grows(c: ContextModel, ns: Seq<NameModel>, params: Seq<TypeRefModel>)
    ensures
        grows(c, add_refs_model(c, ns, params)),
        add_refs_model(c, ns, params).next_id <= c.next_id + refs_weight(params),
    decreases params,
{
    if params.len() == 0 {
        lemma_grows_refl(c);
    } else {
        let c1 = add_ref_model(c, ns, params[0]);
        lemma_add_ref_grows(c, ns, params[0]);
        lemma_add_refs_grows(c1, ns, params.drop_first());
        lemma_grows_trans(c, c1, add_refs_model(c1, ns, params.drop_first()));
    }
}

pub proof fn lemma_add_fields_grows(c: ContextModel, ns: Seq<NameModel>, fields: Seq<FieldModel>)
    ensures
        grows(c, add_fields_model(c, ns, fields)),
        add_fields_model(c, ns, fields).next_id <= c.next_id + fields_weight(fields),
    decreases fields,
{
    if fields.len() == 0 {
        lemma_grows_refl(c);
    } else {
        let c1 = add_ref_model(c, ns, fields[0].type_ref);
        lemma_add_ref_grows(c, ns, fields[0].type_ref);
        lemma_add_fields_grows(c1, ns, fields.drop_first());
        lemma_grows_trans(c, c1, add_fields_model(c1, ns, fields.drop_first()));
    }
}

pub proof fn lemma_add_type_grows(c: ContextModel, ns: Seq<NameModel>, t: TypeModel)
    ensures
        grows(c, add_type_model(c, ns, t)),
        add_type_model(c, ns, t).next_id <= c.next_id + type_weight(t),
    decreases t,
{
    match t {
        TypeModel::Primitive(p) => {
            lemma_grows_refl(c);
        },
        TypeModel::Struct(fields) => {
            lemma_add_fields_grows(c, ns, fields);
        },
        TypeModel::Enum(fields) => {
            lemma_add_fields_grows(c, ns, fields);
        },
        TypeModel::List(inner) => {
            lemma_add_type_grows(c, ns, *inner);
        },
    }
}

/// After the reference pass over a reference, that reference is
/// registered: every by-name node inside it has a handle.
pub proof fn lemma_add_ref_registered(c: ContextModel, ns: Seq<NameModel>, r: TypeRefModel)
    ensures
        ref_registered(add_ref_model(c, ns, r), ns, r),
    decreases r,
{
    match r {
        TypeRefModel::ByName { name, params } => {
            let key = qualify(ns, name);
            let c1 = if named_find(c.named, key) is Some {
                c
            } else {
                ContextModel {
                    defined: c.defined,
                    named: c.named.push((key, c.next_id)),
                    undefined: c.undefined.push(c.next_id),
                    next_id: c.next_id + 1,
                }
            };
            let d = add_refs_model(c1, ns, params);
            assert(named_find(c1.named, key) is Some) by {
                if named_find(c.named, key) is None {
                    lemma_named_index_from_props(c.named, key, 0);
                    assert(c.named.push((key, c.next_id)) == named_upsert(c.named, key, c.next_id));
                    lemma_named_upsert_find(c.named, key, c.next_id, key);
                }
            }
            lemma_add_refs_grows(c1, ns, params);
            lemma_find_stable(c1, d, key);
            lemma_add_refs_registered(c1, ns, params);
        },
        TypeRefModel::ById { id, params } => {
            lemma_add_refs_registered(c, ns, params);
        },
    }
}

pub proof fn lemma_add_refs_registered(
    c: ContextModel,
    ns: Seq<NameModel>,
    params: Seq<TypeRefModel>,
)
    ensures
        refs_registered(add_refs_model(c, ns, params), ns, params),
    decreases params,
{
    if params.len() > 0 {
        let c1 = add_ref_model(c, ns, params[0]);
        let d = add_refs_model(c1, ns, params.drop_first());
        lemma_add_ref_registered(c, ns, params[0]);
        lemma_add_refs_registered(c1, ns, params.drop_first());
        lemma_add_refs_grows(c1, ns, params.drop_first());
        lemma_ref_registered_stable(c1, d, ns, params[0]);
        assert forall|i: int| 0 <= i < params.len() implies ref_registered(
            d,
            ns,
            #[trigger] params[i],
        ) by {
            if i > 0 {
                assert(params.drop_first()[i - 1] == params[i]);
                assert(ref_registered(d, ns, params.drop_first()[i - 1]));
            }
        }
    }
}

pub proof fn lemma_add_fields_registered(
    c: ContextModel,
    ns: Seq<NameModel>,
    fields: Seq<FieldModel>,
)
    ensures
        fields_registered(add_fields_model(c, ns, fields), ns, fields),
    decreases fields,
{
    if fields.len() > 0 {
        let c1 = add_ref_model(c, ns, fields[0].type_ref);
        let d = add_fields_model(c1, ns, fields.drop_first());
        lemma_add_ref_registered(c, ns, fields[0].type_ref);
        lemma_add_fields_registered(c1, ns, fields.drop_first());
        lemma_add_fields_grows(c1, ns, fields.drop_first());
        lemma_ref_registered_stable(c1, d, ns, fields[0].type_ref);
        assert forall|i: int| 0 <= i < fields.len() implies ref_registered(
            d,
            ns,
            (#[trigger] fields[i]).type_ref,
        ) by {
            if i > 0 {
                assert(fields.drop_first()[i - 1] == fields[i]);
                assert(ref_registered(d, ns, fields.drop_first()[i - 1].type_ref));
            }
        }
    }
}

/// After the reference pass over a shape, the shape is registered.
pub proof fn lemma_add_type_registered(c: ContextModel, ns: Seq<NameModel>, t: TypeModel)
    ensures
        type_registered(add_type_model(c, ns, t), ns, t),
    decreases t,
{
    match t {
        TypeModel::Primitive(p) => {},
        TypeModel::Struct(fields) => {
            lemma_add_fields_registered(c, ns, fields);
        },
        TypeModel::Enum(fields) => {
            lemma_add_fields_registered(c, ns, fields);
        },
        TypeModel::List(inner) => {
            lemma_add_type_registered(c, ns, *inner);
        },
    }
}

/// Rewriting leaves only id-based references.
pub proof fn lemma_rewrite_ref_resolved(c: ContextModel, ns: Seq<NameModel>, r: TypeRefModel)
    ensures
        ref_resolved(rewrite_ref_model(c, ns, r)),
    decreases r,
{
    match r {
        TypeRefModel::ByName { name, params } => {
            lemma_rewrite_refs_resolved(c, ns, params);
        },
        TypeRefModel::ById { id, params } => {
            lemma_rewrite_refs_resolved(c, ns, params);
        },
    }
}

pub proof fn lemma_rewrite_refs_resolved(c: ContextModel, ns: Seq<NameModel>, s: Seq<TypeRefModel>)
    ensures
        refs_resolved(rewrite_refs_model(c, ns, s)),
        rewrite_refs_model(c, ns, s).len() == s.len(),
    decreases s,
{
    if s.len() > 0 {
        lemma_rewrite_refs_resolved(c, ns, s.drop_last());
        lemma_rewrite_ref_resolved(c, ns, s.last());
        let out = rewrite_refs_model(c, ns, s);
        let pre = rewrite_refs_model(c, ns, s.drop_last());
        assert forall|i: int| 0 <= i < out.len() implies ref_resolved(#[trigger] out[i]) by {
            if i < out.len() - 1 {
                assert(out[i] == pre[i]);
            }
        }
    }
}

pub proof fn lemma_rewrite_fields_resolved(c: ContextModel, ns: Seq<NameModel>, s: Seq<FieldModel>)
    ensures
        fields_resolved(rewrite_fields_model(c, ns, s)),
        rewrite_fields_model(c, ns, s).len() == s.len(),
    decreases s,
{
    if s.len() > 0 {
        lemma_rewrite_fields_resolved(c, ns, s.drop_last());
        lemma_rewrite_ref_resolved(c, ns, s.last().type_ref);
        let out = rewrite_fields_model(c, ns, s);
        let pre = rewrite_fields_model(c, ns, s.drop_last());
        assert forall|i: int| 0 <= i < out.len() implies ref_resolved(
            (#[trigger] out[i]).type_ref,
        ) by {
            if i < out.len() - 1 {
                assert(out[i] == pre[i]);
            }
        }
    }
}

/// A rewritten shape is fully resolved.
pub proof fn lemma_rewrite_type_resolved(c: ContextModel, ns: Seq<NameModel>, t: TypeModel)
    ensures
        type_resolved(rewrite_type_model(c, ns, t)),
    decreases t,
{
    match t {
        TypeModel::Primitive(p) => {},
        TypeModel::Struct(fields) => {
            lemma_rewrite_fields_resolved(c, ns, fields);
        },
        TypeModel::Enum(fields) => {
            lemma_rewrite_fields_resolved(c, ns, fields);
        },
        TypeModel::List(inner) => {
            lemma_rewrite_type_resolved(c, ns, *inner);
        },
    }
}

impl Context {
    /// Bind `key` to `id` in the name table: replace the first entry with
    /// that key, or append one.
    fn upsert_named(&mut self, key: QualifiedName, id: TypeId)
        ensures
            final(self)@ == (ContextModel {
                named: named_upsert(old(self)@.named, key@, id@),
                ..old(self)@
            }),
    {
        let ghost pre = self@;
        let mut i: usize = 0;
        while i < self.named_types.len()
            invariant
                i <= self.named_types.len(),
                pre == old(self)@,
                self@ == pre,
                named_index(pre.named, key@) == named_index_from(pre.named, key@, i as int),
            decreases self.named_types.len() - i,
        {
            proof {
                assert(pre.named[i as int] == (self.named_types@[i as int].0@,
                self.named_types@[i as int].1@));
            }
            if qn_eq(&self.named_types[i].0, &key) {
                let ghost keyv = key@;
                let ghost idv = id@;
                let ghost vec_pre = self.named_types@;
                self.named_types.set(i, (key, id));
                proof {
                    assert(named_index(pre.named, keyv) == i);
                    assert(self@.named.len() == pre.named.len());
                    assert forall|j: int| 0 <= j < pre.named.len() && j != i implies #[trigger]
                    self@.named[j] == pre.named[j] by {
                        assert(self.named_types@[j] == vec_pre[j]);
                        assert(pre.named[j] == (vec_pre[j].0@, vec_pre[j].1@));
                    }
                    assert(self@.named[i as int] == (keyv, idv));
                    assert(self@.named =~= pre.named.update(i as int, (keyv, idv)));
                    assert(self@ =~= (ContextModel {
                        named: named_upsert(pre.named, key@, id@),
                        ..pre
                    }));
                }
                return ;
            }
            i = i + 1;
        }
        let ghost keyv = key@;
        let ghost idv = id@;
        let ghost vec_pre = self.named_types@;
        self.named_types.push((key, id));
        proof {
            assert(named_index(pre.named, keyv) == -1);
            assert(self@.named.len() == pre.named.len() + 1);
            assert forall|j: int| 0 <= j < pre.named.len() implies #[trigger] self@.named[j]
                == pre.named[j] by {
                assert(self.named_types@[j] == vec_pre[j]);
                assert(pre.named[j] == (vec_pre[j].0@, vec_pre[j].1@));
            }
            assert(self@.named[pre.named.len() as int] == (keyv, idv));
            assert(self@.named =~= pre.named.push((keyv, idv)));
            assert(self@ =~= (ContextModel { named: named_upsert(pre.named, keyv, idv), ..pre }));
        }
    }

    /// Bind `id` to `info` in the definition table: replace the first
    /// entry with that handle, or append one.
    fn upsert_defined(&mut self, id: TypeId, info: TypeInfo)
        ensures
            final(self)@ == (ContextModel {
                defined: defined_upsert(old(self)@.defined, id@, info@),
                ..old(self)@
            }),
    {
        let ghost pre = self@;
        let mut i: usize = 0;
        while i < self.defined_types.len()
            invariant
                i <= self.defined_types.len(),
                pre == old(self)@,
                self@ == pre,
                defined_index(pre.defined, id@) == defined_index_from(pre.defined, id@, i as int),
            decreases self.defined_types.len() - i,
        {
            proof {
                assert(pre.defined[i as int] == (self.defined_types@[i as int].0@,
                self.defined_types@[i as int].1@));
            }
            if self.defined_types[i].0 == id {
                let ghost idv = id@;
                let ghost infov = info@;
                let ghost vec_pre = self.defined_types@;
                self.defined_types.set(i, (id, info));
                proof {
                    assert(defined_index(pre.defined, idv) == i);
                    assert(self@.defined.len() == pre.defined.len());
                    assert forall|j: int| 0 <= j < pre.defined.len() && j != i implies #[trigger]
                    self@.defined[j] == pre.defined[j] by {
                        assert(self.defined_types@[j] == vec_pre[j]);
                        assert(pre.defined[j] == (vec_pre[j].0@, vec_pre[j].1@));
                    }
                    assert(self@.defined[i as int] == (idv, infov));
                    assert(self@.defined =~= pre.defined.update(i as int, (idv, infov)));
                    assert(self@ =~= (ContextModel {
                        defined: defined_upsert(pre.defined, id@, info@),
                        ..pre
                    }));
                }
                return ;
            }
            i = i + 1;
        }
        let ghost idv = id@;
        let ghost infov = info@;
        let ghost vec_pre = self.defined_types@;
        self.defined_types.push((id, info));
        proof {
            assert(defined_index(pre.defined, idv) == -1);
            assert(self@.defined.len() == pre.defined.len() + 1);
            assert forall|j: int| 0 <= j < pre.defined.len() implies #[trigger] self@.defined[j]
                == pre.defined[j] by {
                assert(self.defined_types@[j] == vec_pre[j]);
                assert(pre.defined[j] == (vec_pre[j].0@, vec_pre[j].1@));
            }
            assert(self@.defined[pre.defined.len() as int] == (idv, infov));
            assert(self@.defined =~= pre.defined.push((idv, infov)));
            assert(self@ =~= (ContextModel {
                defined: defined_upsert(pre.defined, idv, infov),
                ..pre
            }));
        }
    }

    /// Drop every occurrence of `id` from the undefined list.
    fn remove_undefined(&mut self, id: TypeId)
        ensures
            final(self)@ == (ContextModel {
                undefined: without_id(old(self)@.undefined, id@),
                ..old(self)@
            }),
    {
        let ghost pre = self@;
        let mut kept: Vec<TypeId> = Vec::new();
        let mut i: usize = 0;
        while i < self.undefined_ids.len()
            invariant
                i <= self.undefined_ids.len(),
                self@ == pre,
                ids_model(kept@) == without_id(pre.undefined.take(i as int), id@),
            decreases self.undefined_ids.len() - i,
        {
            proof {
                assert(pre.undefined[i as int] == self.undefined_ids@[i as int]@);
                assert(pre.undefined.take(i as int + 1).drop_last() =~= pre.undefined.take(
                    i as int,
                ));
                assert(pre.undefined.take(i as int + 1).last() == pre.undefined[i as int]);
            }
            let current = self.undefined_ids[i];
            if !(current == id) {
                let ghost kept_pre = kept@;
                kept.push(current);
                proof {
                    assert(kept@.drop_last() =~= kept_pre);
                    assert(ids_model(kept@) =~= ids_model(kept_pre).push(current@));
                    assert(ids_model(kept@) =~= without_id(
                        pre.undefined.take(i as int + 1),
                        id@,
                    ));
                }
            } else {
                proof {
                    assert(ids_model(kept@) =~= without_id(
                        pre.undefined.take(i as int + 1),
                        id@,
                    ));
                }
            }
            i = i + 1;
        }
        proof {
            assert(pre.undefined.take(self.undefined_ids.len() as int) =~= pre.undefined);
        }
        self.undefined_ids = kept;
        proof {
            assert(self@ =~= (ContextModel { undefined: without_id(pre.undefined, id@), ..pre }));
        }
    }

    /// The reference pass for one reference: give its canonical name a
    /// fresh handle when it has none (recording the handle as undefined),
    /// then visit its type parameters, depth-first and left to right.
    pub(crate) fn add_unresolved_type_references_from_ref(
        &mut self,
        ctx_namespace: &QualifiedName,
        container_type_id: &TypeId,
        typeref: &TypeRef,
    )
        requires
            old(self)@.next_id + ref_weight(typeref@) <= usize::MAX,
        ensures
            final(self)@ == add_ref_model(old(self)@, ctx_namespace@, typeref@),
        decreases *typeref,
    {
        let ghost c0 = self@;
        match typeref {
            TypeRef::ByName(r) => {
                proof {
                    assert(typeref@ == TypeRefModel::ByName {
                        name: r.name@,
                        params: params_model(r.params@),
                    });
                }
                let resolution = self.resolve_name(ctx_namespace, &r.name);
                let ghost key = qualify(ctx_namespace@, r.name@);
                if resolution.id.is_none() {
                    let type_id = self.type_id_generator.next();
                    self.named_types.push((resolution.name, type_id));
                    self.undefined_ids.push(type_id);
                    proof {
                        assert(self@.named =~= c0.named.push((key, c0.next_id)));
                        assert(self@.undefined =~= c0.undefined.push(c0.next_id));
                        assert(self@ =~= (ContextModel {
                            defined: c0.defined,
                            named: c0.named.push((key, c0.next_id)),
                            undefined: c0.undefined.push(c0.next_id),
                            next_id: c0.next_id + 1,
                        }));
                    }
                }
                let ghost c1 = self@;
                let ghost ps = params_model(r.params@);
                proof {
                    crate::nodes::lemma_params_model_len(r.params@);
                    assert(add_refs_model(c1, ctx_namespace@, ps.skip(0)) == add_refs_model(
                        c1,
                        ctx_namespace@,
                        ps,
                    )) by {
                        assert(ps.skip(0) =~= ps);
                    }
                }
                let mut i: usize = 0;
                while i < r.params.len()
                    invariant
                        i <= r.params.len(),
                        *typeref == TypeRef::ByName(*r),
                        ps.len() == r.params.len(),
                        ps == params_model(r.params@),
                        add_refs_model(self@, ctx_namespace@, ps.skip(i as int)) == add_refs_model(
                            c1,
                            ctx_namespace@,
                            ps,
                        ),
                        self@.next_id + refs_weight(ps.skip(i as int)) <= usize::MAX,
                    decreases r.params.len() - i,
                {
                    let ghost cpre = self@;
                    proof {
                        crate::nodes::lemma_params_model_index(r.params@, i as int);
                        assert(ps.skip(i as int)[0] == ps[i as int]);
                        assert(ps.skip(i as int).drop_first() =~= ps.skip(i as int + 1));
                        assert(refs_weight(ps.skip(i as int)) == ref_weight(ps[i as int])
                            + refs_weight(ps.skip(i as int + 1)));
                        assert(*typeref == TypeRef::ByName(*r));
                        assert(decreases_to!(*typeref => typeref->ByName_0.params@[i as int]));
                    }
                    self.add_unresolved_type_references_from_ref(
                        ctx_namespace,
                        container_type_id,
                        &r.params[i],
                    );
                    proof {
                        lemma_add_ref_grows(cpre, ctx_namespace@, ps[i as int]);
                        assert(add_refs_model(cpre, ctx_namespace@, ps.skip(i as int))
                            == add_refs_model(self@, ctx_namespace@, ps.skip(i as int + 1)));
                    }
                    i = i + 1;
                }
                proof {
                    assert(ps.skip(r.params.len() as int) =~= Seq::<TypeRefModel>::empty());
                    assert(add_refs_model(self@, ctx_namespace@, ps.skip(r.params.len() as int))
                        == self@);
                }
            },
            TypeRef::ById(r) => {
                proof {
                    assert(typeref@ == TypeRefModel::ById {
                        id: r.id@,
                        params: params_model(r.params@),
                    });
                }
                let ghost ps = params_model(r.params@);
                proof {
                    crate::nodes::lemma_params_model_len(r.params@);
                    assert(ps.skip(0) =~= ps);
                }
                let mut i: usize = 0;
                while i < r.params.len()
                    invariant
                        i <= r.params.len(),
                        *typeref == TypeRef::ById(*r),
                        ps.len() == r.params.len(),
                        ps == params_model(r.params@),
                        add_refs_model(self@, ctx_namespace@, ps.skip(i as int)) == add_refs_model(
                            c0,
                            ctx_namespace@,
                            ps,
                        ),
                        self@.next_id + refs_weight(ps.skip(i as int)) <= usize::MAX,
                    decreases r.params.len() - i,
                {
                    let ghost cpre = self@;
                    proof {
                        crate::nodes::lemma_params_model_index(r.params@, i as int);
                        assert(ps.skip(i as int)[0] == ps[i as int]);
                        assert(ps.skip(i as int).drop_first() =~= ps.skip(i as int + 1));
                        assert(refs_weight(ps.skip(i as int)) == ref_weight(ps[i as int])
                            + refs_weight(ps.skip(i as int + 1)));
                        assert(*typeref == TypeRef::ById(*r));
                        assert(decreases_to!(*typeref => typeref->ById_0.params@[i as int]));
                    }
                    self.add_unresolved_type_references_from_ref(
                        ctx_namespace,
                        container_type_id,
                        &r.params[i],
                    );
                    proof {
                        lemma_add_ref_grows(cpre, ctx_namespace@, ps[i as int]);
                        assert(add_refs_model(cpre, ctx_namespace@, ps.skip(i as int))
                            == add_refs_model(self@, ctx_namespace@, ps.skip(i as int + 1)));
                    }
                    i = i + 1;
                }
                proof {
                    assert(ps.skip(r.params.len() as int) =~= Seq::<TypeRefModel>::empty());
                    assert(add_refs_model(self@, ctx_namespace@, ps.skip(r.params.len() as int))
                        == self@);
                }
            },
        }
    }

    /// The reference pass over a shape: every field's reference, and a
    /// list's element shape, in order.
    pub(crate) fn add_unresolved_type_references_from_type(
        &mut self,
        ctx_namespace: &QualifiedName,
        container_type_id: &TypeId,
        type_: &Type,
    )
        requires
            old(self)@.next_id + type_weight(type_@) <= usize::MAX,
        ensures
            final(self)@ == add_type_model(old(self)@, ctx_namespace@, type_@),
        decreases *type_,
    {
        let ghost c0 = self@;
        match type_ {
            Type::Primitive(p) => {},
            Type::Struct(s) => {
                self.add_unresolved_type_references_from_fields(
                    ctx_namespace,
                    container_type_id,
                    &s.fields,
                );
            },
            Type::Enum(e) => {
                self.add_unresolved_type_references_from_fields(
                    ctx_namespace,
                    container_type_id,
                    &e.fields,
                );
            },
            Type::List(inner) => {
                proof {
                    assert(decreases_to!(*type_ => *(*inner)));
                }
                self.add_unresolved_type_references_from_type(
                    ctx_namespace,
                    container_type_id,
                    inner,
                );
            },
        }
    }

    /// The reference pass over a field list, left to right.
    fn add_unresolved_type_references_from_fields(
        &mut self,
        ctx_namespace: &QualifiedName,
        container_type_id: &TypeId,
        fields: &Vec<Field>,
    )
        requires
            old(self)@.next_id + fields_weight(fields_model(fields@)) <= usize::MAX,
        ensures
            final(self)@ == add_fields_model(old(self)@, ctx_namespace@, fields_model(fields@)),
    {
        let ghost c0 = self@;
        let ghost fs = fields_model(fields@);
        proof {
            crate::nodes::lemma_fields_model_len(fields@);
            assert(fs.skip(0) =~= fs);
        }
        let mut i: usize = 0;
        while i < fields.len()
            invariant
                i <= fields.len(),
                fs.len() == fields.len(),
                fs == fields_model(fields@),
                add_fields_model(self@, ctx_namespace@, fs.skip(i as int)) == add_fields_model(
                    c0,
                    ctx_namespace@,
                    fs,
                ),
                self@.next_id + fields_weight(fs.skip(i as int)) <= usize::MAX,
            decreases fields.len() - i,
        {
            let ghost cpre = self@;
            proof {
                crate::nodes::lemma_fields_model_index(fields@, i as int);
                assert(fs.skip(i as int)[0] == fs[i as int]);
                assert(fs.skip(i as int).drop_first() =~= fs.skip(i as int + 1));
                assert(fields_weight(fs.skip(i as int)) == ref_weight(fs[i as int].type_ref)
                    + fields_weight(fs.skip(i as int + 1)));
                assert(fields@[i as int].type_@ == fs[i as int].type_ref);
            }
            self.add_unresolved_type_references_from_ref(
                ctx_namespace,
                container_type_id,
                &fields[i].type_,
            );
            proof {
                lemma_add_ref_grows(cpre, ctx_namespace@, fs[i as int].type_ref);
                assert(add_fields_model(cpre, ctx_namespace@, fs.skip(i as int))
                    == add_fields_model(self@, ctx_namespace@, fs.skip(i as int + 1)));
            }
            i = i + 1;
        }
        proof {
            assert(fs.skip(fields.len() as int) =~= Seq::<FieldModel>::empty());
            assert(add_fields_model(self@, ctx_namespace@, fs.skip(fields.len() as int)) == self@);
        }
    }
}

/// The definition pass advances the allocator by at most the
/// declaration's weight.
pub proof fn lemma_add_type_def_next(c: ContextModel, ns: Seq<NameModel>, td: TypeDefModel)
    ensures
        c.next_id <= add_type_def_model(c, ns, td).next_id <= c.next_id + type_def_weight(td),
{
    let key = ns.push(td.name);
    let found = named_find(c.named, key);
    let id = match found {
        Some(i) => i,
        None => c.next_id,
    };
    let c1 = ContextModel {
        defined: c.defined,
        named: named_upsert(c.named, key, id),
        undefined: without_id(c.undefined, id),
        next_id: if found is Some {
            c.next_id
        } else {
            c.next_id + 1
        },
    };
    lemma_add_type_grows(c1, ns, td.shape);
}

/// A file's definition pass advances the allocator by at most its weight.
pub proof fn lemma_add_type_defs_next(c: ContextModel, ns: Seq<NameModel>, tds: Seq<TypeDefModel>)
    ensures
        c.next_id <= add_type_defs_model(c, ns, tds).next_id <= c.next_id + type_defs_weight(tds),
    decreases tds,
{
    if tds.len() > 0 {
        lemma_add_type_def_next(c, ns, tds[0]);
        lemma_add_type_defs_next(add_type_def_model(c, ns, tds[0]), ns, tds.drop_first());
    }
}

impl Context {
    /// One reference re-expressed by handle: its canonical name's handle
    /// replaces the name, and the parameters are rewritten depth-first.
    pub(crate) fn replace_refbyname_with_refbyid_in_ref(
        &self,
        ctx_namespace: &QualifiedName,
        typeref: &TypeRef,
    ) -> (r: TypeRef)
        requires
            ref_registered(self@, ctx_namespace@, typeref@),
        ensures
            r@ == rewrite_ref_model(self@, ctx_namespace@, typeref@),
        decreases *typeref,
    {
        match typeref {
            TypeRef::ByName(b) => {
                proof {
                    assert(typeref@ == TypeRefModel::ByName {
                        name: b.name@,
                        params: params_model(b.params@),
                    });
                }
                let resolution = self.resolve_name(ctx_namespace, &b.name);
                let id = match &resolution.id {
                    Some(id) => *id,
                    None => {
                        proof {
                            assert(false);
                        }
                        TypeId::new(0)
                    },
                };
                let ghost ps = params_model(b.params@);
                proof {
                    crate::nodes::lemma_params_model_len(b.params@);
                    assert(id@ == found_id(self@, qualify(ctx_namespace@, b.name@)));
                }
                let mut out: Vec<TypeRef> = Vec::new();
                let mut i: usize = 0;
                while i < b.params.len()
                    invariant
                        i <= b.params.len(),
                        *typeref == TypeRef::ByName(*b),
                        ps.len() == b.params.len(),
                        ps == params_model(b.params@),
                        refs_registered(self@, ctx_namespace@, ps),
                        params_model(out@) == rewrite_refs_model(
                            self@,
                            ctx_namespace@,
                            ps.take(i as int),
                        ),
                    decreases b.params.len() - i,
                {
                    proof {
                        crate::nodes::lemma_params_model_index(b.params@, i as int);
                        assert(ref_registered(self@, ctx_namespace@, ps[i as int]));
                        assert(decreases_to!(*typeref => typeref->ByName_0.params@[i as int]));
                        assert(ps.take(i as int + 1).drop_last() =~= ps.take(i as int));
                        assert(ps.take(i as int + 1).last() == ps[i as int]);
                    }
                    let ghost out_pre = out@;
                    let child = self.replace_refbyname_with_refbyid_in_ref(
                        ctx_namespace,
                        &b.params[i],
                    );
                    out.push(child);
                    proof {
                        assert(out@.drop_last() =~= out_pre);
                        assert(params_model(out@) == rewrite_refs_model(
                            self@,
                            ctx_namespace@,
                            ps.take(i as int + 1),
                        ));
                    }
                    i = i + 1;
                }
                proof {
                    assert(ps.take(b.params.len() as int) =~= ps);
                }
                TypeRef::ById(TypeRefById { id, params: out })
            },
            TypeRef::ById(b) => {
                proof {
                    assert(typeref@ == TypeRefModel::ById {
                        id: b.id@,
                        params: params_model(b.params@),
                    });
                }
                let ghost ps = params_model(b.params@);
                proof {
                    crate::nodes::lemma_params_model_len(b.params@);
                }
                let mut out: Vec<TypeRef> = Vec::new();
                let mut i: usize = 0;
                while i < b.params.len()
                    invariant
                        i <= b.params.len(),
                        *typeref == TypeRef::ById(*b),
                        ps.len() == b.params.len(),
                        ps == params_model(b.params@),
                        refs_registered(self@, ctx_namespace@, ps),
                        params_model(out@) == rewrite_refs_model(
                            self@,
                            ctx_namespace@,
                            ps.take(i as int),
                        ),
                    decreases b.params.len() - i,
                {
                    proof {
                        crate::nodes::lemma_params_model_index(b.params@, i as int);
                        assert(ref_registered(self@, ctx_namespace@, ps[i as int]));
                        assert(decreases_to!(*typeref => typeref->ById_0.params@[i as int]));
                        assert(ps.take(i as int + 1).drop_last() =~= ps.take(i as int));
                        assert(ps.take(i as int + 1).last() == ps[i as int]);
                    }
                    let ghost out_pre = out@;
                    let child = self.replace_refbyname_with_refbyid_in_ref(
                        ctx_namespace,
                        &b.params[i],
                    );
                    out.push(child);
                    proof {
                        assert(out@.drop_last() =~= out_pre);
                        assert(params_model(out@) == rewrite_refs_model(
                            self@,
                            ctx_namespace@,
                            ps.take(i as int + 1),
                        ));
                    }
                    i = i + 1;
                }
                proof {
                    assert(ps.take(b.params.len() as int) =~= ps);
                }
                TypeRef::ById(TypeRefById { id: b.id, params: out })
            },
        }
    }

    /// One shape with every reference re-expressed by handle.
    pub(crate) fn replace_refbyname_with_refbyid_in_type(
        &self,
        ctx_namespace: &QualifiedName,
        type_: &Type,
    ) -> (r: Type)
        requires
            type_registered(self@, ctx_namespace@, type_@),
        ensures
            r@ == rewrite_type_model(self@, ctx_namespace@, type_@),
        decreases *type_,
    {
        match type_ {
            Type::Primitive(p) => Type::Primitive(*p),
            Type::Struct(s) => {
                let fields = self.replace_refbyname_with_refbyid_in_fields(
                    ctx_namespace,
                    &s.fields,
                );
                proof {
                    assert(type_@ == TypeModel::Struct(fields_model(s.fields@)));
                }
                Type::Struct(Struct { fields })
            },
            Type::Enum(e) => {
                let fields = self.replace_refbyname_with_refbyid_in_fields(
                    ctx_namespace,
                    &e.fields,
                );
                proof {
                    assert(type_@ == TypeModel::Enum(fields_model(e.fields@)));
                }
                Type::Enum(Enum { fields })
            },
            Type::List(inner) => {
                proof {
                    assert(decreases_to!(*type_ => *(*inner)));
                }
                Type::List(Box::new(self.replace_refbyname_with_refbyid_in_type(
                    ctx_namespace,
                    inner,
                )))
            },
        }
    }

    /// A field list with every reference re-expressed by handle.
    fn replace_refbyname_with_refbyid_in_fields(
        &self,
        ctx_namespace: &QualifiedName,
        fields: &Vec<Field>,
    ) -> (r: Vec<Field>)
        requires
            fields_registered(self@, ctx_namespace@, fields_model(fields@)),
        ensures
            fields_model(r@) == rewrite_fields_model(
                self@,
                ctx_namespace@,
                fields_model(fields@),
            ),
    {
        let ghost fs = fields_model(fields@);
        proof {
            crate::nodes::lemma_fields_model_len(fields@);
        }
        let mut out: Vec<Field> = Vec::new();
        let mut i: usize = 0;
        while i < fields.len()
            invariant
                i <= fields.len(),
                fs.len() == fields.len(),
                fs == fields_model(fields@),
                fields_registered(self@, ctx_namespace@, fs),
                fields_model(out@) == rewrite_fields_model(
                    self@,
                    ctx_namespace@,
                    fs.take(i as int),
                ),
            decreases fields.len() - i,
        {
            proof {
                crate::nodes::lemma_fields_model_index(fields@, i as int);
                assert(ref_registered(self@, ctx_namespace@, fs[i as int].type_ref));
                assert(fields@[i as int].type_@ == fs[i as int].type_ref);
                assert(fs.take(i as int + 1).drop_last() =~= fs.take(i as int));
                assert(fs.take(i as int + 1).last() == fs[i as int]);
            }
            let field = &fields[i];
            let new_ref = self.replace_refbyname_with_refbyid_in_ref(ctx_namespace, &field.type_);
            let ghost out_pre = out@;
            let new_field = Field { name: field.name.clone(), type_: new_ref };
            proof {
                assert(new_field@ =~= (FieldModel {
                    name: fs[i as int].name,
                    type_ref: rewrite_ref_model(self@, ctx_namespace@, fs[i as int].type_ref),
                }));
            }
            out.push(new_field);
            proof {
                assert(out@.drop_last() =~= out_pre);
                assert(fields_model(out@) == rewrite_fields_model(
                    self@,
                    ctx_namespace@,
                    fs.take(i as int + 1),
                ));
            }
            i = i + 1;
        }
        proof {
            assert(fs.take(fields.len() as int) =~= fs);
        }
        out
    }

    /// One declaration with every reference re-expressed by handle.
    pub(crate) fn replace_refbyname_with_refbyid(
        &self,
        ctx_namespace: &QualifiedName,
        typedef: &TypeDef,
    ) -> (r: TypeDef)
        requires
            type_registered(self@, ctx_namespace@, typedef@.shape),
        ensures
            r@ == rewrite_type_def_model(self@, ctx_namespace@, typedef@),
    {
        let r = TypeDef {
            name: typedef.name.clone(),
            type_: self.replace_refbyname_with_refbyid_in_type(ctx_namespace, &typedef.type_),
        };
        proof {
            assert(r@ =~= rewrite_type_def_model(self@, ctx_namespace@, typedef@));
        }
        r
    }

    /// The two passes for one file: for each declaration in order, bind
    /// its canonical name to a handle, clear that handle from the
    /// undefined set, register the shape's references, and store the
    /// fully id-based declaration.
    pub(crate) fn add_file(&mut self, file: &File)
        requires
            old(self)@.next_id + file_weight(file@) <= usize::MAX,
        ensures
            final(self)@ == add_file_model(old(self)@, file@),
    {
        let ghost c0 = self@;
        let ghost nsv = file.namespace@;
        let ghost tds = type_defs_model(file.types@);
        proof {
            crate::nodes::lemma_type_defs_model_len(file.types@);
            assert(tds.skip(0) =~= tds);
        }
        let mut i: usize = 0;
        while i < file.types.len()
            invariant
                i <= file.types.len(),
                tds.len() == file.types.len(),
                tds == type_defs_model(file.types@),
                nsv == file.namespace@,
                add_type_defs_model(self@, nsv, tds.skip(i as int)) == add_type_defs_model(
                    c0,
                    nsv,
                    tds,
                ),
                self@.next_id + type_defs_weight(tds.skip(i as int)) <= usize::MAX,
            decreases file.types.len() - i,
        {
            let ghost cpre = self@;
            let ghost tdm = tds[i as int];
            proof {
                crate::nodes::lemma_type_defs_model_index(file.types@, i as int);
                assert(tds.skip(i as int)[0] == tdm);
                assert(tds.skip(i as int).drop_first() =~= tds.skip(i as int + 1));
                assert(type_defs_weight(tds.skip(i as int)) == type_def_weight(tdm)
                    + type_defs_weight(tds.skip(i as int + 1)));
            }
            let typedef = &file.types[i];
            let ghost key = nsv.push(tdm.name);
            let qname = file.namespace.with_appended(&typedef.name);
            proof {
                assert(typedef@ == tdm);
                assert(qname@ == key);
            }
            let resolution = self.resolve_name(&file.namespace, &qname);
            proof {
                if qname@.len() == 1 {
                    assert(nsv.len() == 0);
                    assert(qualify(nsv, qname@) =~= qname@);
                }
                assert(qualify(nsv, qname@) == key);
                assert(resolution@.id == named_find(cpre.named, key));
            }
            let type_id = match &resolution.id {
                Some(id) => *id,
                None => self.type_id_generator.next(),
            };
            proof {
                match named_find(cpre.named, key) {
                    Some(found) => {
                        assert(type_id@ == found);
                    },
                    None => {
                        assert(type_id@ == cpre.next_id);
                        assert(self@ =~= (ContextModel { next_id: cpre.next_id + 1, ..cpre }));
                    },
                }
            }
            self.upsert_named(qname.clone(), type_id);
            self.remove_undefined(type_id);
            let ghost c1 = self@;
            proof {
                assert(c1 =~= (ContextModel {
                    defined: cpre.defined,
                    named: named_upsert(cpre.named, key, type_id@),
                    undefined: without_id(cpre.undefined, type_id@),
                    next_id: if named_find(cpre.named, key) is Some {
                        cpre.next_id
                    } else {
                        cpre.next_id + 1
                    },
                }));
                assert(typedef.type_@ == tdm.shape);
            }
            self.add_unresolved_type_references_from_type(
                &file.namespace,
                &type_id,
                &typedef.type_,
            );
            let ghost c2 = self@;
            proof {
                assert(c2 == add_type_model(c1, nsv, tdm.shape));
                lemma_add_type_registered(c1, nsv, tdm.shape);
                assert(type_registered(c2, nsv, tdm.shape));
                assert(typedef@.shape == tdm.shape);
            }
            let new_def = self.replace_refbyname_with_refbyid(&file.namespace, typedef);
            let info = TypeInfo::new(qname, new_def);
            self.upsert_defined(type_id, info);
            proof {
                assert(info@ =~= (TypeInfoModel {
                    name: key,
                    def: rewrite_type_def_model(c2, nsv, tdm),
                }));
                assert(self@ =~= add_type_def_model(cpre, nsv, tdm));
                assert(add_type_defs_model(cpre, nsv, tds.skip(i as int)) == add_type_defs_model(
                    self@,
                    nsv,
                    tds.skip(i as int + 1),
                ));
                lemma_add_type_grows(c1, nsv, tdm.shape);
                assert(self@.next_id + type_defs_weight(tds.skip(i as int + 1)) <= usize::MAX);
            }
            i = i + 1;
        }
        proof {
            assert(tds.skip(file.types.len() as int) =~= Seq::<TypeDefModel>::empty());
            assert(add_type_defs_model(self@, nsv, tds.skip(file.types.len() as int)) == self@);
            assert(add_file_model(c0, file@) == add_type_defs_model(c0, nsv, tds));
        }
    }

    /// Fold a whole declaration tree into the context, file by file. A
    /// well-formed context stays well-formed.
    pub fn add_root(&mut self, ast: &Root)
        requires
            old(self)@.next_id + files_weight(ast@) <= usize::MAX,
        ensures
            final(self)@ == add_files_model(old(self)@, ast@),
            crate::laws::context_wf(old(self)@) ==> crate::laws::context_wf(final(self)@),
    {
        proof {
            if crate::laws::context_wf(self@) {
                crate::laws::lemma_add_files_inv(self@, ast@, Set::<nat>::empty());
            }
        }
        let ghost c0 = self@;
        let ghost fls = files_model(ast.files@);
        proof {
            crate::nodes::lemma_files_model_len(ast.files@);
            assert(fls.skip(0) =~= fls);
        }
        let mut i: usize = 0;
        while i < ast.files.len()
            invariant
                i <= ast.files.len(),
                fls.len() == ast.files.len(),
                fls == files_model(ast.files@),
                add_files_model(self@, fls.skip(i as int)) == add_files_model(c0, fls),
                self@.next_id + files_weight(fls.skip(i as int)) <= usize::MAX,
            decreases ast.files.len() - i,
        {
            let ghost cpre = self@;
            let ghost fm = fls[i as int];
            proof {
                crate::nodes::lemma_files_model_index(ast.files@, i as int);
                assert(fls.skip(i as int)[0] == fm);
                assert(fls.skip(i as int).drop_first() =~= fls.skip(i as int + 1));
                assert(files_weight(fls.skip(i as int)) == file_weight(fm) + files_weight(
                    fls.skip(i as int + 1),
                ));
                assert(ast.files@[i as int]@ == fm);
            }
            self.add_file(&ast.files[i]);
            proof {
                lemma_add_type_defs_next(cpre, fm.namespace, fm.types);
                assert(self@ == add_file_model(cpre, fm));
                assert(add_files_model(cpre, fls.skip(i as int)) == add_files_model(
                    self@,
                    fls.skip(i as int + 1),
                ));
                assert(self@.next_id + files_weight(fls.skip(i as int + 1)) <= usize::MAX);
            }
            i = i + 1;
        }
        proof {
            assert(fls.skip(ast.files.len() as int) =~= Seq::<FileModel>::empty());
            assert(add_files_model(self@, fls.skip(ast.files.len() as int)) == self@);
        }
    }

    /// Build the whole context from one declaration tree: the single
    /// construction entry point. The result is well-formed: in particular,
    /// a handle is undefined exactly when it was referenced by name and
    /// never given a definition.
    pub fn from_root(ast: &Root) -> (r: Context)
        requires
            files_weight(ast@) <= usize::MAX,
        ensures
            r@ == construct_model(ast@),
            crate::laws::context_wf(r@),
    {
        let mut ctx = Context::new();
        proof {
            assert(crate::laws::context_wf(ctx@));
        }
        ctx.add_root(ast);
        ctx
    }
}

} // verus!
