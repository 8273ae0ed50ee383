//! The declaration tree: files of type definitions whose shapes reference
//! other types, first by qualified name and, once resolution has run, by
//! numeric handle (`TypeId`).

use vstd::prelude::*;

use crate::names::Name;
use crate::names::NameModel;
use crate::names::QualifiedName;

verus! {

/// An opaque numeric handle for a type; unique for the lifetime of one
/// resolution context.
#[derive(Clone, Copy, Debug, PartialEq, Eq, Structural)]
pub struct TypeId {
    pub value: usize,
}

impl View for TypeId {
    type V = nat;

    open spec fn view(&self) -> nat {
        self.value as nat
    }
}

impl TypeId {
    /// A handle with the given numeric value.
    pub fn new(value: usize) -> (r: TypeId)
        ensures
            r@ == value as nat,
    {
        TypeId { value }
    }

    /// The numeric value of the handle.
    pub fn id(&self) -> (r: usize)
        ensures
            r as nat == self@,
    {
        self.value
    }
}

/// The built-in leaf types.
#[derive(Clone, Copy, Debug, PartialEq, Eq, Structural)]
pub enum Primitive {
    Unit,
    Bool,
    Int8,
    Int16,
    Int32,
    Int64,
    UInt8,
    UInt16,
    UInt32,
    UInt64,
    Float32,
    Float64,
    Utf8Text,
}

/// A reference to a type by qualified name, with nested references as
/// type parameters.
#[derive(Debug)]
pub struct TypeRefByName {
    pub name: QualifiedName,
    pub params: Vec<TypeRef>,
}

/// A reference to a type by numeric handle, with nested references as
/// type parameters.
#[derive(Debug)]
pub struct TypeRefById {
    pub id: TypeId,
    pub params: Vec<TypeRef>,
}

/// A reference to a type: by name before resolution, by handle after.
#[derive(Debug)]
pub enum TypeRef {
    ByName(TypeRefByName),
    ById(TypeRefById),
}

/// A named field whose type is given by reference.
#[derive(Debug)]
pub struct Field {
    pub name: Name,
    pub type_: TypeRef,
}

/// A struct shape: an ordered list of fields.
#[derive(Debug)]
pub struct Struct {
    pub fields: Vec<Field>,
}

/// An enum shape: an ordered list of fields.
#[derive(Debug)]
pub struct Enum {
    pub fields: Vec<Field>,
}

/// A type's shape.
#[derive(Debug)]
pub enum Type {
    Primitive(Primitive),
    Struct(Struct),
    Enum(Enum),
    List(Box<Type>),
}

/// A declared type: its local name and its shape.
#[derive(Debug)]
pub struct TypeDef {
    pub name: Name,
    pub type_: Type,
}

/// One source file: a namespace and its declarations, in order.
#[derive(Debug)]
pub struct File {
    pub namespace: QualifiedName,
    pub types: Vec<TypeDef>,
}

/// A whole declaration tree: the files, in input order.
#[derive(Debug)]
pub struct Root {
    pub files: Vec<File>,
}

/// Mathematical model of a type reference.
#[verifier::ext_equal]
pub ghost enum TypeRefModel {
    ByName { name: Seq<NameModel>, params: Seq<TypeRefModel> },
    ById { id: nat, params: Seq<TypeRefModel> },
}

/// Mathematical model of a field.
#[verifier::ext_equal]
pub ghost struct FieldModel {
    pub name: NameModel,
    pub type_ref: TypeRefModel,
}

/// Mathematical model of a shape.
#[verifier::ext_equal]
pub ghost enum TypeModel {
    Primitive(Primitive),
    Struct(Seq<FieldModel>),
    Enum(Seq<FieldModel>),
    List(Box<TypeModel>),
}

/// Mathematical model of a declaration.
#[verifier::ext_equal]
pub ghost struct TypeDefModel {
    pub name: NameModel,
    pub shape: TypeModel,
}

/// Mathematical model of a file.
#[verifier::ext_equal]
pub ghost struct FileModel {
    pub namespace: Seq<NameModel>,
    pub types: Seq<TypeDefModel>,
}

pub open spec fn type_ref_model(r: TypeRef) -> TypeRefModel
    decreases r,
{
    match r {
        TypeRef::ByName(b) => TypeRefModel::ByName {
            name: b.name@,
            params: params_model(b.params@),
        },
        TypeRef::ById(b) => TypeRefModel::ById { id: b.id@, params: params_model(b.params@) },
    }
}

pub open spec fn params_model(s: Seq<TypeRef>) -> Seq<TypeRefModel>
    decreases s,
{
    if s.len() == 0 {
        Seq::empty()
    } else {
        params_model(s.drop_last()).push(type_ref_model(s.last()))
    }
}

pub open spec fn field_model(f: Field) -> FieldModel {
    FieldModel { name: f.name@, type_ref: type_ref_model(f.type_) }
}

pub open spec fn fields_model(s: Seq<Field>) -> Seq<FieldModel>
    decreases s,
{
    if s.len() == 0 {
        Seq::empty()
    } else {
        fields_model(s.drop_last()).push(field_model(s.last()))
    }
}

pub open spec fn type_model(t: Type) -> TypeModel
    decreases t,
{
    match t {
        Type::Primitive(p) => TypeModel::Primitive(p),
        Type::Struct(s) => TypeModel::Struct(fields_model(s.fields@)),
        Type::Enum(e) => TypeModel::Enum(fields_model(e.fields@)),
        Type::List(t) => TypeModel::List(Box::new(type_model(*t))),
    }
}

pub open spec fn type_def_model(td: TypeDef) -> TypeDefModel {
    TypeDefModel { name: td.name@, shape: type_model(td.type_) }
}

pub open spec fn type_defs_model(s: Seq<TypeDef>) -> Seq<TypeDefModel>
    decreases s,
{
    if s.len() == 0 {
        Seq::empty()
    } else {
        type_defs_model(s.drop_last()).push(type_def_model(s.last()))
    }
}

pub open spec fn file_model(f: File) -> FileModel {
    FileModel { namespace: f.namespace@, types: type_defs_model(f.types@) }
}

pub open spec fn files_model(s: Seq<File>) -> Seq<FileModel>
    decreases s,
{
    if s.len() == 0 {
        Seq::empty()
    } else {
        files_model(s.drop_last()).push(file_model(s.last()))
    }
}

impl View for TypeRef {
    type V = TypeRefModel;

    open spec fn view(&self) -> TypeRefModel {
        type_ref_model(*self)
    }
}

impl View for Field {
    type V = FieldModel;

    open spec fn view(&self) -> FieldModel {
        field_model(*self)
    }
}

impl View for Type {
    type V = TypeModel;

    open spec fn view(&self) -> TypeModel {
        type_model(*self)
    }
}

impl View for TypeDef {
    type V = TypeDefModel;

    open spec fn view(&self) -> TypeDefModel {
        type_def_model(*self)
    }
}

impl View for File {
    type V = FileModel;

    open spec fn view(&self) -> FileModel {
        file_model(*self)
    }
}

impl View for Root {
    type V = Seq<FileModel>;

    open spec fn view(&self) -> Seq<FileModel> {
        files_model(self.files@)
    }
}

/// How many fresh handles resolving this reference can consume: one for
/// the reference itself when it is by name, plus its parameters' needs.
pub open spec fn ref_weight(r: TypeRefModel) -> nat
    decreases r,
{
    match r {
        TypeRefModel::ByName { name, params } => 1 + refs_weight(params),
        TypeRefModel::ById { id, params } => refs_weight(params),
    }
}

pub open spec fn refs_weight(s: Seq<TypeRefModel>) -> nat
    decreases s,
{
    if s.len() == 0 {
        0
    } else {
        ref_weight(s[0]) + refs_weight(s.drop_first())
    }
}

pub open spec fn type_weight(t: TypeModel) -> nat
    decreases t,
{
    match t {
        TypeModel::Primitive(p) => 0,
        TypeModel::Struct(fields) => fields_weight(fields),
        TypeModel::Enum(fields) => fields_weight(fields),
        TypeModel::List(inner) => type_weight(*inner),
    }
}

pub open spec fn fields_weight(s: Seq<FieldModel>) -> nat
    decreases s,
{
    if s.len() == 0 {
        0
    } else {
        ref_weight(s[0].type_ref) + fields_weight(s.drop_first())
    }
}

/// How many fresh handles one declaration can consume: one for itself
/// plus its shape's references.
pub open spec fn type_def_weight(td: TypeDefModel) -> nat {
    1 + type_weight(td.shape)
}

pub open spec fn type_defs_weight(s: Seq<TypeDefModel>) -> nat
    decreases s,
{
    if s.len() == 0 {
        0
    } else {
        type_def_weight(s[0]) + type_defs_weight(s.drop_first())
    }
}

pub open spec fn file_weight(f: FileModel) -> nat {
    type_defs_weight(f.types)
}

pub open spec fn files_weight(s: Seq<FileModel>) -> nat
    decreases s,
{
    if s.len() == 0 {
        0
    } else {
        file_weight(s[0]) + files_weight(s.drop_first())
    }
}

/// Whether a reference is fully id-based, through all its parameters.
pub open spec fn ref_resolved(r: TypeRefModel) -> bool
    decreases r,
{
    match r {
        TypeRefModel::ByName { name, params } => false,
        TypeRefModel::ById { id, params } => refs_resolved(params),
    }
}

pub open spec fn refs_resolved(s: Seq<TypeRefModel>) -> bool
    decreases s,
{
    forall|i: int| 0 <= i < s.len() ==> ref_resolved(#[trigger] s[i])
}

/// Whether a shape contains only id-based references.
pub open spec fn type_resolved(t: TypeModel) -> bool
    decreases t,
{
    match t {
        TypeModel::Primitive(p) => true,
        TypeModel::Struct(fields) => fields_resolved(fields),
        TypeModel::Enum(fields) => fields_resolved(fields),
        TypeModel::List(inner) => type_resolved(*inner),
    }
}

pub open spec fn fields_resolved(s: Seq<FieldModel>) -> bool
    decreases s,
{
    forall|i: int| 0 <= i < s.len() ==> ref_resolved(#[trigger] s[i].type_ref)
}

impl TypeRefByName {
    /// A by-name reference with the given parameters.
    pub fn new(name: QualifiedName, params: Vec<TypeRef>) -> (r: TypeRefByName)
        ensures
            r.name@ == name@,
            params_model(r.params@) == params_model(params@),
    {
        TypeRefByName { name, params }
    }
}

impl TypeRefById {
    /// A by-id reference with the given parameters.
    pub fn new(id: TypeId, params: Vec<TypeRef>) -> (r: TypeRefById)
        ensures
            r.id == id,
            params_model(r.params@) == params_model(params@),
    {
        TypeRefById { id, params }
    }
}

impl Field {
    /// A field with the given name and type reference.
    pub fn new(name: Name, type_: TypeRef) -> (r: Field)
        ensures
            r@ == (FieldModel { name: name@, type_ref: type_@ }),
    {
        Field { name, type_ }
    }

    /// The field's name.
    pub fn name(&self) -> (r: &Name)
        ensures
            r@ == self@.name,
    {
        &self.name
    }

    /// The field's type reference.
    pub fn type_(&self) -> (r: &TypeRef)
        ensures
            r@ == self@.type_ref,
    {
        &self.type_
    }
}

impl Struct {
    /// A struct shape with the given fields.
    pub fn new(fields: Vec<Field>) -> (r: Struct)
        ensures
            fields_model(r.fields@) == fields_model(fields@),
    {
        Struct { fields }
    }

    /// The fields, in declaration order.
    pub fn fields(&self) -> (r: &Vec<Field>)
        ensures
            fields_model(r@) == fields_model(self.fields@),
    {
        &self.fields
    }
}

impl Enum {
    /// An enum shape with the given fields.
    pub fn new(fields: Vec<Field>) -> (r: Enum)
        ensures
            fields_model(r.fields@) == fields_model(fields@),
    {
        Enum { fields }
    }

    /// The fields, in declaration order.
    pub fn fields(&self) -> (r: &Vec<Field>)
        ensures
            fields_model(r@) == fields_model(self.fields@),
    {
        &self.fields
    }
}

impl TypeDef {
    /// A declaration of a type with the given local name and shape.
    pub fn new(name: Name, type_: Type) -> (r: TypeDef)
        ensures
            r@ == (TypeDefModel { name: name@, shape: type_@ }),
    {
        TypeDef { name, type_ }
    }

    /// The declared type's local name.
    pub fn name(&self) -> (r: &Name)
        ensures
            r@ == self@.name,
    {
        &self.name
    }

    /// The declared type's shape.
    pub fn type_(&self) -> (r: &Type)
        ensures
            r@ == self@.shape,
    {
        &self.type_
    }
}

impl File {
    /// A file with the given namespace and declarations.
    pub fn new(namespace: QualifiedName, types: Vec<TypeDef>) -> (r: File)
        ensures
            r@ == (FileModel { namespace: namespace@, types: type_defs_model(types@) }),
    {
        File { namespace, types }
    }

    /// The file's namespace.
    pub fn namespace(&self) -> (r: &QualifiedName)
        ensures
            r@ == self@.namespace,
    {
        &self.namespace
    }

    /// The file's declarations, in order.
    pub fn types(&self) -> (r: &Vec<TypeDef>)
        ensures
            type_defs_model(r@) == self@.types,
    {
        &self.types
    }
}

impl Root {
    /// A declaration tree made of the given files.
    pub fn new(files: Vec<File>) -> (r: Root)
        ensures
            r@ == files_model(files@),
    {
        Root { files }
    }

    /// The files, in input order.
    pub fn files(&self) -> (r: &Vec<File>)
        ensures
            files_model(r@) == self@,
    {
        &self.files
    }
}

/// A copy of a type reference, equal in the model.
pub(crate) fn clone_type_ref(r: &TypeRef) -> (res: TypeRef)
    ensures
        res@ == r@,
    decreases *r,
{
    match r {
        TypeRef::ByName(b) => {
            let params = clone_params(&b.params);
            TypeRef::ByName(TypeRefByName { name: b.name.clone(), params })
        },
        TypeRef::ById(b) => {
            let params = clone_params(&b.params);
            TypeRef::ById(TypeRefById { id: b.id, params })
        },
    }
}

/// A copy of a parameter list, equal in the model.
pub(crate) fn clone_params(params: &Vec<TypeRef>) -> (res: Vec<TypeRef>)
    ensures
        params_model(res@) == params_model(params@),
    decreases params@,
{
    let mut out: Vec<TypeRef> = Vec::new();
    let mut i: usize = 0;
    while i < params.len()
        invariant
            i <= params.len(),
            params_model(out@) == params_model(params@.take(i as int)),
        decreases params@.len() - i,
    {
        proof {
            assert(params@.take(i as int + 1).drop_last() =~= params@.take(i as int));
            assert(params@.take(i as int + 1).last() == params@[i as int]);
        }
        let ghost pre = out@;
        out.push(clone_type_ref(&params[i]));
        proof {
            assert(out@.drop_last() =~= pre);
        }
        i = i + 1;
    }
    proof {
        assert(params@.take(params@.len() as int) =~= params@);
    }
    out
}

/// A copy of a field, equal in the model.
pub(crate) fn clone_field(f: &Field) -> (res: Field)
    ensures
        res@ == f@,
{
    let res = Field { name: f.name.clone(), type_: clone_type_ref(&f.type_) };
    proof {
        assert(res@ =~= f@);
    }
    res
}

/// A copy of a field list, equal in the model.
pub(crate) fn clone_fields(fields: &Vec<Field>) -> (res: Vec<Field>)
    ensures
        fields_model(res@) == fields_model(fields@),
{
    let mut out: Vec<Field> = Vec::new();
    let mut i: usize = 0;
    while i < fields.len()
        invariant
            i <= fields.len(),
            fields_model(out@) == fields_model(fields@.take(i as int)),
        decreases fields.len() - i,
    {
        proof {
            assert(fields@.take(i as int + 1).drop_last() =~= fields@.take(i as int));
            assert(fields@.take(i as int + 1).last() == fields@[i as int]);
        }
        let ghost pre = out@;
        out.push(clone_field(&fields[i]));
        proof {
            assert(out@.drop_last() =~= pre);
        }
        i = i + 1;
    }
    proof {
        assert(fields@.take(fields.len() as int) =~= fields@);
    }
    out
}

/// A copy of a shape, equal in the model.
pub(crate) fn clone_type(t: &Type) -> (res: Type)
    ensures
        res@ == t@,
    decreases *t,
{
    match t {
        Type::Primitive(p) => Type::Primitive(*p),
        Type::Struct(s) => Type::Struct(Struct { fields: clone_fields(&s.fields) }),
        Type::Enum(e) => Type::Enum(Enum { fields: clone_fields(&e.fields) }),
        Type::List(inner) => Type::List(Box::new(clone_type(inner))),
    }
}

/// A copy of a declaration, equal in the model.
pub(crate) fn clone_type_def(td: &TypeDef) -> (res: TypeDef)
    ensures
        res@ == td@,
{
    let res = TypeDef { name: td.name.clone(), type_: clone_type(&td.type_) };
    proof {
        assert(res@ =~= td@);
    }
    res
}

impl Clone for TypeRef {
    /// An equal reference.
    fn clone(&self) -> (r: Self)
        ensures
            r@ == self@,
    {
        clone_type_ref(self)
    }
}

impl Clone for Field {
    /// An equal field.
    fn clone(&self) -> (r: Self)
        ensures
            r@ == self@,
    {
        clone_field(self)
    }
}

impl Clone for Type {
    /// An equal shape.
    fn clone(&self) -> (r: Self)
        ensures
            r@ == self@,
    {
        clone_type(self)
    }
}

impl Clone for TypeDef {
    /// An equal declaration.
    fn clone(&self) -> (r: Self)
        ensures
            r@ == self@,
    {
        clone_type_def(self)
    }
}

/// The model of a reference list is element-wise.
pub proof fn lemma_params_model_len(s: Seq<TypeRef>)
    ensures
        params_model(s).len() == s.len(),
    decreases s,
{
    if s.len() > 0 {
        lemma_params_model_len(s.drop_last());
    }
}

/// The model of a reference list, at one index.
pub proof fn lemma_params_model_index(s: Seq<TypeRef>, i: int)
    requires
        0 <= i < s.len(),
    ensures
        params_model(s).len() == s.len(),
        params_model(s)[i] == type_ref_model(s[i]),
    decreases s,
{
    lemma_params_model_len(s);
    if i == s.len() - 1 {
        lemma_params_model_len(s.drop_last());
    } else {
        lemma_params_model_index(s.drop_last(), i);
        assert(s.drop_last()[i] == s[i]);
    }
}

/// The model of a field list is element-wise.
pub proof fn lemma_fields_model_len(s: Seq<Field>)
    ensures
        fields_model(s).len() == s.len(),
    decreases s,
{
    if s.len() > 0 {
        lemma_fields_model_len(s.drop_last());
    }
}

/// The model of a field list, at one index.
pub proof fn lemma_fields_model_index(s: Seq<Field>, i: int)
    requires
        0 <= i < s.len(),
    ensures
        fields_model(s).len() == s.len(),
        fields_model(s)[i] == field_model(s[i]),
    decreases s,
{
    lemma_fields_model_len(s);
    if i == s.len() - 1 {
        lemma_fields_model_len(s.drop_last());
    } else {
        lemma_fields_model_index(s.drop_last(), i);
        assert(s.drop_last()[i] == s[i]);
    }
}

/// The model of a declaration list is element-wise.
pub proof fn lemma_type_defs_model_len(s: Seq<TypeDef>)
    ensures
        type_defs_model(s).len() == s.len(),
    decreases s,
{
    if s.len() > 0 {
        lemma_type_defs_model_len(s.drop_last());
    }
}

/// The model of a declaration list, at one index.
pub proof fn lemma_type_defs_model_index(s: Seq<TypeDef>, i: int)
    requires
        0 <= i < s.len(),
    ensures
        type_defs_model(s).len() == s.len(),
        type_defs_model(s)[i] == type_def_model(s[i]),
    decreases s,
{
    lemma_type_defs_model_len(s);
    if i == s.len() - 1 {
        lemma_type_defs_model_len(s.drop_last());
    } else {
        lemma_type_defs_model_index(s.drop_last(), i);
        assert(s.drop_last()[i] == s[i]);
    }
}

/// The model of a file list is element-wise.
pub proof fn lemma_files_model_len(s: Seq<File>)
    ensures
        files_model(s).len() == s.len(),
    decreases s,
{
    if s.len() > 0 {
        lemma_files_model_len(s.drop_last());
    }
}

/// The model of a file list, at one index.
pub proof fn lemma_files_model_index(s: Seq<File>, i: int)
    requires
        0 <= i < s.len(),
    ensures
        files_model(s).len() == s.len(),
        files_model(s)[i] == file_model(s[i]),
    decreases s,
{
    lemma_files_model_len(s);
    if i == s.len() - 1 {
        lemma_files_model_len(s.drop_last());
    } else {
        lemma_files_model_index(s.drop_last(), i);
        assert(s.drop_last()[i] == s[i]);
    }
}

} // verus!
